//! A single shape or stride dimension, known either at compile time or at run time.
use vstd::prelude::*;

verus! {

/// One dimension of a shape or stride, as the layout code works with it at run time:
/// its extent, and whether that extent was fixed by the dimension's type.
#[derive(Clone, Copy, Debug, PartialEq, Eq, Structural)]
pub struct Extent {
    /// The dimension's extent.
    pub value: usize,
    /// Whether the extent is a compile-time constant (a [`Const`] or a product of them).
    pub known: bool,
}

impl Extent {
    /// A dimension whose extent is fixed by its type.
    pub fn constant(value: usize) -> (e: Extent)
        ensures
            e == (Extent { value, known: true }),
    {
        Extent { value, known: true }
    }

    /// A dimension supplied at run time.
    pub fn dynamic(value: usize) -> (e: Extent)
        ensures
            e == (Extent { value, known: false }),
    {
        Extent { value, known: false }
    }

    /// This dimension's extent.
    pub fn value(self) -> (r: usize)
        ensures
            r == self.value,
    {
        self.value
    }

    /// `Some(n)` if this dimension is known at compile time, `None` if it is a runtime value.
    pub fn static_value(self) -> (r: Option<usize>)
        ensures
            r == spec_static_of(self),
    {
        if self.known {
            Some(self.value)
        } else {
            None
        }
    }
}

/// The compile-time extent of a dimension, if it has one.
pub open spec fn spec_static_of(e: Extent) -> Option<usize> {
    if e.known {
        Some(e.value)
    } else {
        None
    }
}

/// One entry of a shape or stride tuple.
///
/// The implementations are [`Const<N>`], whose extent is part of its type, `usize`, whose
/// extent is only known at run time, and [`Prod`], the product of two dimensions.
pub trait Dim: Copy + Sized {
    /// The extent and static-ness of this dimension.
    spec fn spec_extent(self) -> Extent;

    /// The compile-time extent of every value of this type, if the type fixes one.
    spec fn spec_static() -> Option<usize>;

    /// Whether computing this dimension's extent stays within `usize`.
    spec fn spec_ok(self) -> bool;

    /// Whether computing the compile-time extent stays within `usize`.
    spec fn spec_static_ok() -> bool;

    /// This dimension's extent.
    fn value(self) -> (r: usize)
        requires
            self.spec_ok(),
        ensures
            r == self.spec_extent().value,
    ;

    /// This dimension as a run-time [`Extent`].
    fn extent(self) -> (e: Extent)
        requires
            self.spec_ok(),
        ensures
            e == self.spec_extent(),
    ;

    /// `Some(n)` if the type fixes the extent at compile time, `None` if it is a runtime value.
    fn static_value() -> (r: Option<usize>)
        requires
            Self::spec_static_ok(),
        ensures
            r == Self::spec_static(),
    ;

    /// A type's compile-time extent is the extent of each of its values.
    proof fn lemma_static_agrees(self)
        requires
            self.spec_ok(),
            Self::spec_static_ok(),
        ensures
            Self::spec_static() == spec_static_of(self.spec_extent()),
    ;
}

/// A dimension whose extent is part of its type. Zero-sized, so static dimensions cost no storage.
#[derive(Clone, Copy, Debug, Default, PartialEq, Eq, PartialOrd, Ord, Hash)]
pub struct Const<const N: usize>;

impl<const N: usize> Dim for Const<N> {
    open spec fn spec_extent(self) -> Extent {
        Extent { value: N, known: true }
    }

    open spec fn spec_static() -> Option<usize> {
        Some(N)
    }

    open spec fn spec_ok(self) -> bool {
        true
    }

    open spec fn spec_static_ok() -> bool {
        true
    }

    fn value(self) -> (r: usize) {
        N
    }

    fn extent(self) -> (e: Extent) {
        Extent { value: N, known: true }
    }

    fn static_value() -> (r: Option<usize>) {
        Some(N)
    }

    proof fn lemma_static_agrees(self) {
    }
}

/// A dimension supplied at run time.
impl Dim for usize {
    open spec fn spec_extent(self) -> Extent {
        Extent { value: self, known: false }
    }

    open spec fn spec_static() -> Option<usize> {
        None
    }

    open spec fn spec_ok(self) -> bool {
        true
    }

    open spec fn spec_static_ok() -> bool {
        true
    }

    fn value(self) -> (r: usize) {
        self
    }

    fn extent(self) -> (e: Extent) {
        Extent { value: self, known: false }
    }

    fn static_value() -> (r: Option<usize>) {
        None
    }

    proof fn lemma_static_agrees(self) {
    }
}

/// The product of two dimensions, static whenever both of its operands are.
#[derive(Clone, Copy, Debug, Default, PartialEq, Eq, PartialOrd, Ord, Hash)]
pub struct Prod<A, B>(pub A, pub B);

impl<A: Dim, B: Dim> Dim for Prod<A, B> {
    open spec fn spec_extent(self) -> Extent {
        Extent {
            value: (self.0.spec_extent().value * self.1.spec_extent().value) as usize,
            known: self.0.spec_extent().known && self.1.spec_extent().known,
        }
    }

    open spec fn spec_static() -> Option<usize> {
        match (A::spec_static(), B::spec_static()) {
            (Some(a), Some(b)) => Some((a * b) as usize),
            _ => None,
        }
    }

    open spec fn spec_ok(self) -> bool {
        &&& self.0.spec_ok()
        &&& self.1.spec_ok()
        &&& self.0.spec_extent().value * self.1.spec_extent().value <= usize::MAX
    }

    open spec fn spec_static_ok() -> bool {
        &&& A::spec_static_ok()
        &&& B::spec_static_ok()
        &&& match (A::spec_static(), B::spec_static()) {
            (Some(a), Some(b)) => a * b <= usize::MAX,
            _ => true,
        }
    }

    fn value(self) -> (r: usize) {
        self.0.value() * self.1.value()
    }

    fn extent(self) -> (e: Extent) {
        let a = self.0.extent();
        let b = self.1.extent();
        Extent { value: a.value * b.value, known: a.known && b.known }
    }

    fn static_value() -> (r: Option<usize>) {
        match (A::static_value(), B::static_value()) {
            (Some(a), Some(b)) => Some(a * b),
            _ => None,
        }
    }

    proof fn lemma_static_agrees(self) {
        self.0.lemma_static_agrees();
        self.1.lemma_static_agrees();
    }
}

/// Product of the leading `k` entries of a list of per-dimension extents.
pub open spec fn static_prefix_product(dims: Seq<Option<usize>>, k: int) -> int
    decreases k,
{
    if k <= 0 {
        1
    } else {
        static_prefix_product(dims, k - 1) * (match dims[k - 1] {
            Some(d) => d as int,
            None => 1,
        })
    }
}

/// Whether every entry of `dims` is known at compile time.
pub open spec fn spec_all_static(dims: Seq<Option<usize>>) -> bool {
    forall|i: int| 0 <= i < dims.len() ==> (#[trigger] dims[i]) is Some
}

/// Number of leading entries of `dims` that are known at compile time.
pub open spec fn static_run(dims: Seq<Option<usize>>) -> int
    decreases dims.len(),
{
    if dims.len() == 0 {
        0
    } else if dims[0] is None {
        0
    } else {
        1 + static_run(dims.skip(1))
    }
}

/// Product of a list of per-dimension compile-time extents, or `None` if any of them is dynamic.
pub open spec fn spec_static_product(dims: Seq<Option<usize>>) -> Option<usize> {
    if spec_all_static(dims) {
        Some(static_prefix_product(dims, dims.len() as int) as usize)
    } else {
        None
    }
}

/// The products that [`static_product`] forms on its way stay within `usize`: those of every
/// run of leading entries that are all known.
pub open spec fn static_product_fits(dims: Seq<Option<usize>>) -> bool {
    forall|k: int|
        0 <= k <= dims.len() && spec_all_static(dims.take(k)) ==> static_prefix_product(dims, k)
            <= usize::MAX
}

proof fn lemma_static_prefix_product_nonneg(dims: Seq<Option<usize>>, k: int)
    ensures
        static_prefix_product(dims, k) >= 0,
    decreases k,
{
    if k > 0 {
        lemma_static_prefix_product_nonneg(dims, k - 1);
        vstd::arithmetic::mul::lemma_mul_nonnegative(
            static_prefix_product(dims, k - 1),
            match dims[k - 1] {
                Some(d) => d as int,
                None => 1,
            },
        );
    }
}

/// Product of a list of per-dimension compile-time extents, or `None` if any of them is dynamic.
pub fn static_product(dims: &[Option<usize>]) -> (r: Option<usize>)
    requires
        static_product_fits(dims@),
    ensures
        r == spec_static_product(dims@),
{
    let mut acc: usize = 1;
    let mut i: usize = 0;
    while i < dims.len()
        invariant
            0 <= i <= dims.len(),
            static_product_fits(dims@),
            spec_all_static(dims@.take(i as int)),
            acc == static_prefix_product(dims@, i as int),
        decreases dims.len() - i,
    {
        match dims[i] {
            Some(d) => {
                assert(spec_all_static(dims@.take(i + 1))) by {
                    assert forall|j: int| 0 <= j < i + 1 implies (#[trigger] dims@.take(
                        i + 1,
                    )[j]) is Some by {
                        if j < i {
                            assert(dims@.take(i + 1)[j] == dims@.take(i as int)[j]);
                        }
                    }
                }
                assert(static_prefix_product(dims@, i + 1) == acc * d);
                assert(acc * d <= usize::MAX);
                acc = acc * d;
            },
            None => {
                assert(!spec_all_static(dims@)) by {
                    assert(dims@[i as int] is None);
                }
                return None;
            },
        }
        i += 1;
    }
    assert(dims@.take(dims@.len() as int) =~= dims@);
    Some(acc)
}

/// Whether every dimension of a shape/stride pair is known at compile time.
pub open spec fn cosize_known(shape: Seq<Option<usize>>, stride: Seq<Option<usize>>) -> bool {
    forall|i: int| 0 <= i < shape.len() ==> (#[trigger] shape[i]) is Some && stride[i] is Some
}

/// Whether some extent of the shape is zero.
pub open spec fn has_zero_extent(shape: Seq<Option<usize>>) -> bool {
    exists|i: int| 0 <= i < shape.len() && #[trigger] shape[i] == Some(0usize)
}

/// The sum of `(s - 1) * d` over the first `k` dimensions, each a known extent `s` with its
/// known stride `d`.
pub open spec fn static_span(shape: Seq<Option<usize>>, stride: Seq<Option<usize>>, k: int) -> int
    decreases k,
{
    if k <= 0 {
        0
    } else {
        static_span(shape, stride, k - 1) + match (shape[k - 1], stride[k - 1]) {
            (Some(s), Some(d)) => (s - 1) * d,
            _ => 0,
        }
    }
}

/// Size of the memory region spanned by a shape/stride pair: `None` if any dimension is
/// dynamic; otherwise 0 when some extent is 0, and else one more than the sum of
/// `(s - 1) * d` over the dimensions.
pub open spec fn spec_static_cosize(shape: Seq<Option<usize>>, stride: Seq<Option<usize>>) -> Option<
    usize,
> {
    if !cosize_known(shape, stride) {
        None
    } else if has_zero_extent(shape) {
        Some(0)
    } else {
        Some((1 + static_span(shape, stride, shape.len() as int)) as usize)
    }
}

/// With no zero extent among the first `k`, the span of the first `j <= k` dimensions is
/// no more than that of the first `k`, and neither is negative.
proof fn lemma_static_span_grows(shape: Seq<Option<usize>>, stride: Seq<Option<usize>>, j: int, k: int)
    requires
        0 <= j <= k <= shape.len(),
        forall|i: int| 0 <= i < k ==> (#[trigger] shape[i]) != Some(0usize),
    ensures
        0 <= static_span(shape, stride, j) <= static_span(shape, stride, k),
    decreases k,
{
    if k > 0 {
        if j < k {
            lemma_static_span_grows(shape, stride, j, k - 1);
        } else {
            lemma_static_span_grows(shape, stride, j - 1, k - 1);
        }
        match (shape[k - 1], stride[k - 1]) {
            (Some(s), Some(d)) => {
                vstd::arithmetic::mul::lemma_mul_nonnegative(s - 1, d as int);
            },
            _ => {},
        }
    }
}

/// Size of the memory region spanned by a shape/stride pair, or `None` if any dimension is
/// dynamic.
pub fn static_cosize(shape: &[Option<usize>], stride: &[Option<usize>]) -> (r: Option<usize>)
    requires
        stride.len() >= shape.len(),
        cosize_known(shape@, stride@) && !has_zero_extent(shape@) ==> 1 + static_span(
            shape@,
            stride@,
            shape@.len() as int,
        ) <= usize::MAX,
    ensures
        r == spec_static_cosize(shape@, stride@),
{
    // Any dynamic dimension makes the size unknown.
    let mut i: usize = 0;
    while i < shape.len()
        invariant
            0 <= i <= shape.len(),
            stride.len() >= shape.len(),
            forall|j: int| 0 <= j < i ==> (#[trigger] shape@[j]) is Some && stride@[j] is Some,
        decreases shape.len() - i,
    {
        if shape[i].is_none() || stride[i].is_none() {
            return None;
        }
        i += 1;
    }
    // An empty extent spans nothing.
    let mut i: usize = 0;
    while i < shape.len()
        invariant
            0 <= i <= shape.len(),
            stride.len() >= shape.len(),
            cosize_known(shape@, stride@),
            forall|j: int| 0 <= j < i ==> (#[trigger] shape@[j]) != Some(0usize),
        decreases shape.len() - i,
    {
        if shape[i] == Some(0usize) {
            assert(shape@[i as int] == Some(0usize));
            assert(has_zero_extent(shape@));
            return Some(0);
        }
        i += 1;
    }
    let ghost n = shape@.len() as int;
    let mut acc: usize = 1;
    let mut i: usize = 0;
    while i < shape.len()
        invariant
            0 <= i <= shape.len(),
            n == shape@.len(),
            stride.len() >= shape.len(),
            cosize_known(shape@, stride@),
            !has_zero_extent(shape@),
            1 + static_span(shape@, stride@, n) <= usize::MAX,
            acc == 1 + static_span(shape@, stride@, i as int),
        decreases shape.len() - i,
    {
        proof {
            assert(shape@[i as int] is Some && stride@[i as int] is Some);
            assert forall|j: int| 0 <= j < n implies (#[trigger] shape@[j]) != Some(0usize) by {
                if shape@[j] == Some(0usize) {
                    assert(has_zero_extent(shape@));
                }
            }
            lemma_static_span_grows(shape@, stride@, i + 1, n);
        }
        let s = shape[i].unwrap();
        let d = stride[i].unwrap();
        acc = acc + (s - 1) * d;
        i += 1;
    }
    Some(acc)
}

/// Whether every dimension in `dims` is known at compile time.
pub fn all_static(dims: &[Option<usize>]) -> (r: bool)
    ensures
        r == spec_all_static(dims@),
{
    let mut i: usize = 0;
    while i < dims.len()
        invariant
            0 <= i <= dims.len(),
            forall|j: int| 0 <= j < i ==> (#[trigger] dims@[j]) is Some,
        decreases dims.len() - i,
    {
        if dims[i].is_none() {
            return false;
        }
        i += 1;
    }
    true
}

} // verus!
