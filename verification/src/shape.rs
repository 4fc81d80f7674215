//! Fixed-rank lists of dimensions, used for both shapes and strides.
use vstd::prelude::*;
use crate::dim::{Dim, Extent, spec_static_of, spec_all_static, spec_static_product,
    static_prefix_product, static_product_fits, static_product};
use crate::seqmath::{prod, all_nonneg};
use crate::text::{decimal, push_decimal};

verus! {

/// The extents of a list of dimensions.
pub open spec fn vals(s: Seq<Extent>) -> Seq<int> {
    s.map_values(|e: Extent| e.value as int)
}

/// The compile-time extents of a list of dimensions, `None` where one is only known at run time.
pub open spec fn statics(s: Seq<Extent>) -> Seq<Option<usize>> {
    s.map_values(|e: Extent| spec_static_of(e))
}

/// Whether the products `product` forms on its way, those of every prefix, stay within `usize`.
pub open spec fn prefix_products_fit(s: Seq<Extent>) -> bool {
    forall|k: int| 0 <= k <= s.len() ==> #[trigger] prod(vals(s).take(k)) <= usize::MAX
}

/// `(d0, d1, ...)`, the way a shape or stride tuple is written.
pub open spec fn tuple_text(v: Seq<int>) -> Seq<char> {
    seq!['('] + tuple_items(v) + seq![')']
}

/// `d0, d1, ...`
pub open spec fn tuple_items(v: Seq<int>) -> Seq<char>
    decreases v.len(),
{
    if v.len() == 0 {
        Seq::empty()
    } else if v.len() == 1 {
        decimal(v[0] as nat)
    } else {
        tuple_items(v.drop_last()) + seq![',', ' '] + decimal(v.last() as nat)
    }
}

pub proof fn lemma_vals_nonneg(s: Seq<Extent>)
    ensures
        all_nonneg(vals(s)),
        vals(s).len() == s.len(),
{
}

/// A run-time list of dimensions: the extents of a shape or a stride, each with whether it is
/// known at compile time.
#[derive(Clone, Debug)]
pub struct Extents {
    /// One entry per dimension, in order.
    pub items: Vec<Extent>,
}

impl View for Extents {
    type V = Seq<Extent>;

    open spec fn view(&self) -> Seq<Extent> {
        self.items@
    }
}

impl Extents {
    /// A copy of this list of dimensions.
    pub fn duplicate(&self) -> (r: Extents)
        ensures
            r@ == self@,
    {
        let mut items: Vec<Extent> = Vec::new();
        let mut i: usize = 0;
        while i < self.items.len()
            invariant
                0 <= i <= self@.len(),
                items@ =~= self@.take(i as int),
            decreases self@.len() - i,
        {
            items.push(self.items[i]);
            i += 1;
        }
        assert(self@.take(self@.len() as int) =~= self@);
        Extents { items }
    }

    /// Number of dimensions.
    pub fn rank(&self) -> (r: usize)
        ensures
            r == self@.len(),
    {
        self.items.len()
    }

    /// The extent of every dimension.
    pub fn dims(&self) -> (r: Vec<usize>)
        ensures
            r@.len() == self@.len(),
            forall|i: int| 0 <= i < self@.len() ==> #[trigger] r@[i] == self@[i].value,
    {
        let mut r: Vec<usize> = Vec::new();
        let mut i: usize = 0;
        while i < self.items.len()
            invariant
                0 <= i <= self@.len(),
                r@.len() == i,
                forall|j: int| 0 <= j < i ==> #[trigger] r@[j] == self@[j].value,
            decreases self@.len() - i,
        {
            r.push(self.items[i].value);
            i += 1;
        }
        r
    }

    /// The extent of dimension `i`.
    pub fn get(&self, i: usize) -> (r: usize)
        requires
            i < self@.len(),
        ensures
            r == self@[i as int].value,
    {
        self.items[i].value
    }

    /// The compile-time extent of dimension `i`, or `None` if it is a runtime value.
    pub fn static_at(&self, i: usize) -> (r: Option<usize>)
        requires
            i < self@.len(),
        ensures
            r == spec_static_of(self@[i as int]),
    {
        self.items[i].static_value()
    }

    /// Per-dimension compile-time extents; `None` where a dimension is only known at run time.
    pub fn static_dims(&self) -> (r: Vec<Option<usize>>)
        ensures
            r@ == statics(self@),
    {
        let mut r: Vec<Option<usize>> = Vec::new();
        let mut i: usize = 0;
        while i < self.items.len()
            invariant
                0 <= i <= self@.len(),
                r@ =~= statics(self@.take(i as int)),
            decreases self@.len() - i,
        {
            r.push(self.items[i].static_value());
            i += 1;
            assert(statics(self@.take(i as int)) =~= statics(self@.take(i - 1)).push(
                spec_static_of(self@[i - 1]),
            ));
        }
        assert(self@.take(self@.len() as int) =~= self@);
        r
    }

    /// Whether every dimension is known at compile time.
    pub fn all_known(&self) -> (r: bool)
        ensures
            r == (forall|i: int| 0 <= i < self@.len() ==> (#[trigger] self@[i]).known),
    {
        let mut i: usize = 0;
        while i < self.items.len()
            invariant
                0 <= i <= self@.len(),
                forall|j: int| 0 <= j < i ==> (#[trigger] self@[j]).known,
            decreases self@.len() - i,
        {
            if !self.items[i].known {
                return false;
            }
            i += 1;
        }
        true
    }

    /// Product of all extents, or `None` if any dimension is dynamic.
    pub fn static_product(&self) -> (r: Option<usize>)
        requires
            prefix_products_fit(self@),
        ensures
            r == (if (forall|i: int| 0 <= i < self@.len() ==> (#[trigger] self@[i]).known) {
                Some(prod(vals(self@)) as usize)
            } else {
                None::<usize>
            }),
    {
        let dims = self.static_dims();
        proof {
            lemma_static_product_matches(self@);
        }
        static_product(dims.as_slice())
    }

    /// Product of all extents.
    pub fn product(&self) -> (r: usize)
        requires
            prefix_products_fit(self@),
        ensures
            r == prod(vals(self@)),
    {
        let mut acc: usize = 1;
        let mut i: usize = 0;
        while i < self.items.len()
            invariant
                0 <= i <= self@.len(),
                prefix_products_fit(self@),
                acc == prod(vals(self@).take(i as int)),
            decreases self@.len() - i,
        {
            assert(vals(self@).take(i + 1).drop_last() =~= vals(self@).take(i as int));
            assert(prod(vals(self@).take(i + 1)) <= usize::MAX);
            acc = acc * self.items[i].value;
            i += 1;
        }
        assert(vals(self@).take(self@.len() as int) =~= vals(self@));
        acc
    }

    /// Reverses the dimension order.
    pub fn reversed(&self) -> (r: Extents)
        ensures
            r@ == self@.reverse(),
    {
        let mut items: Vec<Extent> = Vec::new();
        let n = self.items.len();
        let mut i: usize = 0;
        while i < n
            invariant
                0 <= i <= n,
                n == self@.len(),
                items@.len() == i,
                forall|j: int| 0 <= j < i ==> #[trigger] items@[j] == self@[n - 1 - j],
            decreases n - i,
        {
            items.push(self.items[n - 1 - i]);
            i += 1;
        }
        let r = Extents { items };
        assert(r@ =~= self@.reverse());
        r
    }

    /// Materializes every dimension as a runtime value.
    pub fn to_dynamic(&self) -> (r: Extents)
        ensures
            r@.len() == self@.len(),
            forall|i: int|
                0 <= i < self@.len() ==> (#[trigger] r@[i]) == (Extent {
                    value: self@[i].value,
                    known: false,
                }),
    {
        let mut items: Vec<Extent> = Vec::new();
        let mut i: usize = 0;
        while i < self.items.len()
            invariant
                0 <= i <= self@.len(),
                items@.len() == i,
                forall|j: int|
                    0 <= j < i ==> (#[trigger] items@[j]) == (Extent {
                        value: self@[j].value,
                        known: false,
                    }),
            decreases self@.len() - i,
        {
            items.push(Extent { value: self.items[i].value, known: false });
            i += 1;
        }
        Extents { items }
    }

    /// Writes the tuple as `(d0, d1, ...)`.
    pub fn write_to(&self, out: &mut String)
        ensures
            final(out)@ == old(out)@ + tuple_text(vals(self@)),
    {
        proof {
            reveal_strlit("(");
            reveal_strlit(")");
            reveal_strlit(", ");
        }
        out.append("(");
        let ghost start = out@;
        let mut i: usize = 0;
        while i < self.items.len()
            invariant
                0 <= i <= self@.len(),
                out@ == start + tuple_items(vals(self@).take(i as int)),
            decreases self@.len() - i,
        {
            let ghost before = out@;
            if i > 0 {
                out.append(", ");
            }
            push_decimal(out, self.items[i].value as u64);
            proof {
                let v = vals(self@).take(i + 1);
                assert(v.drop_last() =~= vals(self@).take(i as int));
                if i == 0 {
                    assert(tuple_items(v) == decimal(self@[0].value as nat));
                    assert(out@ =~= start + tuple_items(v));
                } else {
                    assert(v.len() >= 2);
                    assert(v.last() == self@[i as int].value as int);
                    reveal_strlit(", ");
                    assert(", "@ =~= seq![',', ' ']);
                    assert(tuple_items(v) == tuple_items(v.drop_last()) + seq![',', ' '] + decimal(
                        v.last() as nat,
                    ));
                    assert(out@ =~= start + tuple_items(v));
                }
            }
            i += 1;
        }
        assert(vals(self@).take(self@.len() as int) =~= vals(self@));
        out.append(")");
        assert(out@ =~= old(out)@ + tuple_text(vals(self@)));
    }
}

/// The compile-time product that [`static_product`] computes over a list of dimensions is the
/// product of their extents exactly when all of them are static.
proof fn lemma_static_product_matches(s: Seq<Extent>)
    requires
        prefix_products_fit(s),
    ensures
        static_product_fits(statics(s)),
        spec_static_product(statics(s)) == (if (forall|i: int|
            0 <= i < s.len() ==> (#[trigger] s[i]).known) {
            Some(prod(vals(s)) as usize)
        } else {
            None::<usize>
        }),
{
    assert forall|k: int| 0 <= k <= s.len() implies static_prefix_product(statics(s), k) == prod(
        vals(s).take(k),
    ) || !spec_all_static(statics(s).take(k)) by {
        lemma_static_prefix_product_eq(s, k);
    }
    if forall|i: int| 0 <= i < s.len() ==> (#[trigger] s[i]).known {
        assert(spec_all_static(statics(s))) by {
            assert forall|i: int| 0 <= i < statics(s).len() implies (#[trigger] statics(s)[i]) is Some by {
                assert(s[i].known);
            }
        }
        lemma_static_prefix_product_eq(s, s.len() as int);
        assert(vals(s).take(s.len() as int) =~= vals(s));
        assert(statics(s).take(s.len() as int) =~= statics(s));
    } else {
        let i = choose|i: int| 0 <= i < s.len() && !(#[trigger] s[i]).known;
        assert(statics(s)[i] is None);
    }
}

proof fn lemma_static_prefix_product_eq(s: Seq<Extent>, k: int)
    requires
        0 <= k <= s.len(),
    ensures
        spec_all_static(statics(s).take(k)) ==> static_prefix_product(statics(s), k) == prod(
            vals(s).take(k),
        ),
    decreases k,
{
    if k > 0 {
        lemma_static_prefix_product_eq(s, k - 1);
        assert(vals(s).take(k).drop_last() =~= vals(s).take(k - 1));
        if spec_all_static(statics(s).take(k)) {
            assert(spec_all_static(statics(s).take(k - 1))) by {
                assert forall|j: int| 0 <= j < k - 1 implies (#[trigger] statics(s).take(k - 1)[j]) is Some by {
                    assert(statics(s).take(k)[j] is Some);
                }
            }
            assert(statics(s).take(k)[k - 1] is Some);
        }
    }
}

/// A rank-N tuple of dimensions, e.g. `(Const<4>, usize)` for a 4 x N shape.
///
/// The rank is the tuple's arity, while each individual dimension may be static ([`Const<N>`],
/// or a product of them) or dynamic (`usize`).
pub trait Shape: Sized {
    /// The dimensions, in order.
    spec fn spec_extents(self) -> Seq<Extent>;

    /// Per-dimension compile-time extents of the tuple type.
    spec fn spec_statics() -> Seq<Option<usize>>;

    /// Whether every dimension's extent can be computed within `usize`.
    spec fn spec_ok(self) -> bool;

    /// Whether every dimension's compile-time extent can be computed within `usize`.
    spec fn spec_static_ok() -> bool;

    /// The extent of every dimension, with its static-ness.
    fn extents(self) -> (r: Extents)
        requires
            self.spec_ok(),
        ensures
            r@ == self.spec_extents(),
    ;

    /// Per-dimension compile-time extents; `None` where a dimension is only known at run time.
    fn static_dims() -> (r: Vec<Option<usize>>)
        requires
            Self::spec_static_ok(),
        ensures
            r@ == Self::spec_statics(),
    ;

    /// The tuple type's compile-time extents are those of each of its values.
    proof fn lemma_statics_agree(self)
        requires
            self.spec_ok(),
            Self::spec_static_ok(),
        ensures
            Self::spec_statics() == statics(self.spec_extents()),
    ;
}

impl<A0: Dim> Shape for (A0,) {
    open spec fn spec_extents(self) -> Seq<Extent> {
        seq![self.0.spec_extent()]
    }

    open spec fn spec_statics() -> Seq<Option<usize>> {
        seq![A0::spec_static()]
    }

    open spec fn spec_ok(self) -> bool {
        self.0.spec_ok()
    }

    open spec fn spec_static_ok() -> bool {
        A0::spec_static_ok()
    }

    fn extents(self) -> (r: Extents) {
        let mut items: Vec<Extent> = Vec::new();
        items.push(self.0.extent());
        let r = Extents { items };
        assert(r@ =~= self.spec_extents());
        r
    }

    fn static_dims() -> (r: Vec<Option<usize>>) {
        let mut dims: Vec<Option<usize>> = Vec::new();
        dims.push(A0::static_value());
        assert(dims@ =~= Self::spec_statics());
        dims
    }

    proof fn lemma_statics_agree(self) {
        self.0.lemma_static_agrees();
    }
}

impl<A0: Dim, A1: Dim> Shape for (A0, A1) {
    open spec fn spec_extents(self) -> Seq<Extent> {
        seq![self.0.spec_extent(), self.1.spec_extent()]
    }

    open spec fn spec_statics() -> Seq<Option<usize>> {
        seq![A0::spec_static(), A1::spec_static()]
    }

    open spec fn spec_ok(self) -> bool {
        self.0.spec_ok() && self.1.spec_ok()
    }

    open spec fn spec_static_ok() -> bool {
        A0::spec_static_ok() && A1::spec_static_ok()
    }

    fn extents(self) -> (r: Extents) {
        let mut items: Vec<Extent> = Vec::new();
        items.push(self.0.extent());
        items.push(self.1.extent());
        let r = Extents { items };
        assert(r@ =~= self.spec_extents());
        r
    }

    fn static_dims() -> (r: Vec<Option<usize>>) {
        let mut dims: Vec<Option<usize>> = Vec::new();
        dims.push(A0::static_value());
        dims.push(A1::static_value());
        assert(dims@ =~= Self::spec_statics());
        dims
    }

    proof fn lemma_statics_agree(self) {
        self.0.lemma_static_agrees();
        self.1.lemma_static_agrees();
    }
}

impl<A0: Dim, A1: Dim, A2: Dim> Shape for (A0, A1, A2) {
    open spec fn spec_extents(self) -> Seq<Extent> {
        seq![self.0.spec_extent(), self.1.spec_extent(), self.2.spec_extent()]
    }

    open spec fn spec_statics() -> Seq<Option<usize>> {
        seq![A0::spec_static(), A1::spec_static(), A2::spec_static()]
    }

    open spec fn spec_ok(self) -> bool {
        self.0.spec_ok() && self.1.spec_ok() && self.2.spec_ok()
    }

    open spec fn spec_static_ok() -> bool {
        A0::spec_static_ok() && A1::spec_static_ok() && A2::spec_static_ok()
    }

    fn extents(self) -> (r: Extents) {
        let mut items: Vec<Extent> = Vec::new();
        items.push(self.0.extent());
        items.push(self.1.extent());
        items.push(self.2.extent());
        let r = Extents { items };
        assert(r@ =~= self.spec_extents());
        r
    }

    fn static_dims() -> (r: Vec<Option<usize>>) {
        let mut dims: Vec<Option<usize>> = Vec::new();
        dims.push(A0::static_value());
        dims.push(A1::static_value());
        dims.push(A2::static_value());
        assert(dims@ =~= Self::spec_statics());
        dims
    }

    proof fn lemma_statics_agree(self) {
        self.0.lemma_static_agrees();
        self.1.lemma_static_agrees();
        self.2.lemma_static_agrees();
    }
}

impl<A0: Dim, A1: Dim, A2: Dim, A3: Dim> Shape for (A0, A1, A2, A3) {
    open spec fn spec_extents(self) -> Seq<Extent> {
        seq![self.0.spec_extent(), self.1.spec_extent(), self.2.spec_extent(), self.3.spec_extent()]
    }

    open spec fn spec_statics() -> Seq<Option<usize>> {
        seq![A0::spec_static(), A1::spec_static(), A2::spec_static(), A3::spec_static()]
    }

    open spec fn spec_ok(self) -> bool {
        self.0.spec_ok() && self.1.spec_ok() && self.2.spec_ok() && self.3.spec_ok()
    }

    open spec fn spec_static_ok() -> bool {
        A0::spec_static_ok() && A1::spec_static_ok() && A2::spec_static_ok() && A3::spec_static_ok()
    }

    fn extents(self) -> (r: Extents) {
        let mut items: Vec<Extent> = Vec::new();
        items.push(self.0.extent());
        items.push(self.1.extent());
        items.push(self.2.extent());
        items.push(self.3.extent());
        let r = Extents { items };
        assert(r@ =~= self.spec_extents());
        r
    }

    fn static_dims() -> (r: Vec<Option<usize>>) {
        let mut dims: Vec<Option<usize>> = Vec::new();
        dims.push(A0::static_value());
        dims.push(A1::static_value());
        dims.push(A2::static_value());
        dims.push(A3::static_value());
        assert(dims@ =~= Self::spec_statics());
        dims
    }

    proof fn lemma_statics_agree(self) {
        self.0.lemma_static_agrees();
        self.1.lemma_static_agrees();
        self.2.lemma_static_agrees();
        self.3.lemma_static_agrees();
    }
}

impl<A0: Dim, A1: Dim, A2: Dim, A3: Dim, A4: Dim> Shape for (A0, A1, A2, A3, A4) {
    open spec fn spec_extents(self) -> Seq<Extent> {
        seq![self.0.spec_extent(), self.1.spec_extent(), self.2.spec_extent(), self.3.spec_extent(), self.4.spec_extent()]
    }

    open spec fn spec_statics() -> Seq<Option<usize>> {
        seq![A0::spec_static(), A1::spec_static(), A2::spec_static(), A3::spec_static(), A4::spec_static()]
    }

    open spec fn spec_ok(self) -> bool {
        self.0.spec_ok() && self.1.spec_ok() && self.2.spec_ok() && self.3.spec_ok() && self.4.spec_ok()
    }

    open spec fn spec_static_ok() -> bool {
        A0::spec_static_ok() && A1::spec_static_ok() && A2::spec_static_ok() && A3::spec_static_ok() && A4::spec_static_ok()
    }

    fn extents(self) -> (r: Extents) {
        let mut items: Vec<Extent> = Vec::new();
        items.push(self.0.extent());
        items.push(self.1.extent());
        items.push(self.2.extent());
        items.push(self.3.extent());
        items.push(self.4.extent());
        let r = Extents { items };
        assert(r@ =~= self.spec_extents());
        r
    }

    fn static_dims() -> (r: Vec<Option<usize>>) {
        let mut dims: Vec<Option<usize>> = Vec::new();
        dims.push(A0::static_value());
        dims.push(A1::static_value());
        dims.push(A2::static_value());
        dims.push(A3::static_value());
        dims.push(A4::static_value());
        assert(dims@ =~= Self::spec_statics());
        dims
    }

    proof fn lemma_statics_agree(self) {
        self.0.lemma_static_agrees();
        self.1.lemma_static_agrees();
        self.2.lemma_static_agrees();
        self.3.lemma_static_agrees();
        self.4.lemma_static_agrees();
    }
}

impl<A0: Dim, A1: Dim, A2: Dim, A3: Dim, A4: Dim, A5: Dim> Shape for (A0, A1, A2, A3, A4, A5) {
    open spec fn spec_extents(self) -> Seq<Extent> {
        seq![self.0.spec_extent(), self.1.spec_extent(), self.2.spec_extent(), self.3.spec_extent(), self.4.spec_extent(), self.5.spec_extent()]
    }

    open spec fn spec_statics() -> Seq<Option<usize>> {
        seq![A0::spec_static(), A1::spec_static(), A2::spec_static(), A3::spec_static(), A4::spec_static(), A5::spec_static()]
    }

    open spec fn spec_ok(self) -> bool {
        self.0.spec_ok() && self.1.spec_ok() && self.2.spec_ok() && self.3.spec_ok() && self.4.spec_ok() && self.5.spec_ok()
    }

    open spec fn spec_static_ok() -> bool {
        A0::spec_static_ok() && A1::spec_static_ok() && A2::spec_static_ok() && A3::spec_static_ok() && A4::spec_static_ok() && A5::spec_static_ok()
    }

    fn extents(self) -> (r: Extents) {
        let mut items: Vec<Extent> = Vec::new();
        items.push(self.0.extent());
        items.push(self.1.extent());
        items.push(self.2.extent());
        items.push(self.3.extent());
        items.push(self.4.extent());
        items.push(self.5.extent());
        let r = Extents { items };
        assert(r@ =~= self.spec_extents());
        r
    }

    fn static_dims() -> (r: Vec<Option<usize>>) {
        let mut dims: Vec<Option<usize>> = Vec::new();
        dims.push(A0::static_value());
        dims.push(A1::static_value());
        dims.push(A2::static_value());
        dims.push(A3::static_value());
        dims.push(A4::static_value());
        dims.push(A5::static_value());
        assert(dims@ =~= Self::spec_statics());
        dims
    }

    proof fn lemma_statics_agree(self) {
        self.0.lemma_static_agrees();
        self.1.lemma_static_agrees();
        self.2.lemma_static_agrees();
        self.3.lemma_static_agrees();
        self.4.lemma_static_agrees();
        self.5.lemma_static_agrees();
    }
}

impl<A0: Dim, A1: Dim, A2: Dim, A3: Dim, A4: Dim, A5: Dim, A6: Dim> Shape for (A0, A1, A2, A3, A4, A5, A6) {
    open spec fn spec_extents(self) -> Seq<Extent> {
        seq![self.0.spec_extent(), self.1.spec_extent(), self.2.spec_extent(), self.3.spec_extent(), self.4.spec_extent(), self.5.spec_extent(), self.6.spec_extent()]
    }

    open spec fn spec_statics() -> Seq<Option<usize>> {
        seq![A0::spec_static(), A1::spec_static(), A2::spec_static(), A3::spec_static(), A4::spec_static(), A5::spec_static(), A6::spec_static()]
    }

    open spec fn spec_ok(self) -> bool {
        self.0.spec_ok() && self.1.spec_ok() && self.2.spec_ok() && self.3.spec_ok() && self.4.spec_ok() && self.5.spec_ok() && self.6.spec_ok()
    }

    open spec fn spec_static_ok() -> bool {
        A0::spec_static_ok() && A1::spec_static_ok() && A2::spec_static_ok() && A3::spec_static_ok() && A4::spec_static_ok() && A5::spec_static_ok() && A6::spec_static_ok()
    }

    fn extents(self) -> (r: Extents) {
        let mut items: Vec<Extent> = Vec::new();
        items.push(self.0.extent());
        items.push(self.1.extent());
        items.push(self.2.extent());
        items.push(self.3.extent());
        items.push(self.4.extent());
        items.push(self.5.extent());
        items.push(self.6.extent());
        let r = Extents { items };
        assert(r@ =~= self.spec_extents());
        r
    }

    fn static_dims() -> (r: Vec<Option<usize>>) {
        let mut dims: Vec<Option<usize>> = Vec::new();
        dims.push(A0::static_value());
        dims.push(A1::static_value());
        dims.push(A2::static_value());
        dims.push(A3::static_value());
        dims.push(A4::static_value());
        dims.push(A5::static_value());
        dims.push(A6::static_value());
        assert(dims@ =~= Self::spec_statics());
        dims
    }

    proof fn lemma_statics_agree(self) {
        self.0.lemma_static_agrees();
        self.1.lemma_static_agrees();
        self.2.lemma_static_agrees();
        self.3.lemma_static_agrees();
        self.4.lemma_static_agrees();
        self.5.lemma_static_agrees();
        self.6.lemma_static_agrees();
    }
}

impl<A0: Dim, A1: Dim, A2: Dim, A3: Dim, A4: Dim, A5: Dim, A6: Dim, A7: Dim> Shape for (A0, A1, A2, A3, A4, A5, A6, A7) {
    open spec fn spec_extents(self) -> Seq<Extent> {
        seq![self.0.spec_extent(), self.1.spec_extent(), self.2.spec_extent(), self.3.spec_extent(), self.4.spec_extent(), self.5.spec_extent(), self.6.spec_extent(), self.7.spec_extent()]
    }

    open spec fn spec_statics() -> Seq<Option<usize>> {
        seq![A0::spec_static(), A1::spec_static(), A2::spec_static(), A3::spec_static(), A4::spec_static(), A5::spec_static(), A6::spec_static(), A7::spec_static()]
    }

    open spec fn spec_ok(self) -> bool {
        self.0.spec_ok() && self.1.spec_ok() && self.2.spec_ok() && self.3.spec_ok() && self.4.spec_ok() && self.5.spec_ok() && self.6.spec_ok() && self.7.spec_ok()
    }

    open spec fn spec_static_ok() -> bool {
        A0::spec_static_ok() && A1::spec_static_ok() && A2::spec_static_ok() && A3::spec_static_ok() && A4::spec_static_ok() && A5::spec_static_ok() && A6::spec_static_ok() && A7::spec_static_ok()
    }

    fn extents(self) -> (r: Extents) {
        let mut items: Vec<Extent> = Vec::new();
        items.push(self.0.extent());
        items.push(self.1.extent());
        items.push(self.2.extent());
        items.push(self.3.extent());
        items.push(self.4.extent());
        items.push(self.5.extent());
        items.push(self.6.extent());
        items.push(self.7.extent());
        let r = Extents { items };
        assert(r@ =~= self.spec_extents());
        r
    }

    fn static_dims() -> (r: Vec<Option<usize>>) {
        let mut dims: Vec<Option<usize>> = Vec::new();
        dims.push(A0::static_value());
        dims.push(A1::static_value());
        dims.push(A2::static_value());
        dims.push(A3::static_value());
        dims.push(A4::static_value());
        dims.push(A5::static_value());
        dims.push(A6::static_value());
        dims.push(A7::static_value());
        assert(dims@ =~= Self::spec_statics());
        dims
    }

    proof fn lemma_statics_agree(self) {
        self.0.lemma_static_agrees();
        self.1.lemma_static_agrees();
        self.2.lemma_static_agrees();
        self.3.lemma_static_agrees();
        self.4.lemma_static_agrees();
        self.5.lemma_static_agrees();
        self.6.lemma_static_agrees();
        self.7.lemma_static_agrees();
    }
}
/// Shapes whose dimension `I` can be read on its own, keeping whether it is static.
pub trait DimAt<const I: usize>: Shape {
    /// Dimension `I`.
    fn dim_at(self) -> (r: Extent)
        requires
            self.spec_ok(),
            I < self.spec_extents().len(),
        ensures
            r == self.spec_extents()[I as int],
    ;
}

impl<const I: usize, S: Shape> DimAt<I> for S {
    fn dim_at(self) -> (r: Extent) {
        let extents = self.extents();
        extents.items[I]
    }
}

} // verus!
