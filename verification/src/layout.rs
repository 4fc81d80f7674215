//! A shape/stride pair mapping tensor coordinates to memory indices.
use vstd::prelude::*;
use crate::dim::{Extent, spec_static_of};
use crate::seqmath::{dot, span, lin, prod, has_zero, zero_free, all_nonneg, lemma_span_unfold, lemma_span_nonneg, lemma_dot_unfold, lemma_dot_nonneg, lemma_lin_unfold, lemma_lin_nonneg};
use crate::shape::{Extents, Shape, vals, prefix_products_fit, tuple_text, lemma_vals_nonneg};

verus! {

/// A sequence of `usize` coordinates as integers.
pub open spec fn ivals(v: Seq<usize>) -> Seq<int> {
    v.map_values(|x: usize| x as int)
}

/// The memory footprint of a shape/stride pair: `0` for an empty domain, otherwise one past
/// the offset of its last element.
pub open spec fn spec_cosize(s: Seq<int>, d: Seq<int>) -> int {
    if has_zero(s) {
        0
    } else {
        1 + span(s, d)
    }
}

/// Coordinate `i` of memory index `idx`: `(idx / d[i]) % s[i]`, where a zero stride counts as
/// one and a zero extent yields `0`.
pub open spec fn spec_idx2crd_at(s: Seq<int>, d: Seq<int>, idx: int, i: int) -> int {
    if s[i] == 0 {
        0
    } else {
        (idx / (if d[i] >= 1 {
            d[i]
        } else {
            1
        })) % s[i]
    }
}

/// The memory index of the `r`-th element of the domain, walked with the leftmost coordinate
/// varying fastest; `0` when the domain is empty.
pub open spec fn spec_linear2idx(s: Seq<int>, d: Seq<int>, r: int) -> int {
    if has_zero(s) {
        0
    } else {
        lin(s, d, r)
    }
}

/// A layout that supports mixed compile-time and runtime dimensions.
///
/// The shape is the logical coordinate space, and the stride is the memory step taken per unit
/// of each coordinate. A layout's shape and strides are non-negative, and a well-formed layout
/// has as many strides as it has shape dimensions.
#[derive(Clone, Debug)]
pub struct Layout {
    /// The logical coordinate space.
    pub shape: Extents,
    /// The memory step taken per unit of each coordinate.
    pub stride: Extents,
}

impl Layout {
    /// Shape and stride have the same rank.
    pub open spec fn wf(&self) -> bool {
        self.shape@.len() == self.stride@.len()
    }

    /// The shape's extents.
    pub open spec fn sv(&self) -> Seq<int> {
        vals(self.shape@)
    }

    /// The strides.
    pub open spec fn dv(&self) -> Seq<int> {
        vals(self.stride@)
    }

    /// The memory index of coordinate `c`.
    pub open spec fn spec_crd2idx(&self, c: Seq<int>) -> int {
        dot(c, self.dv())
    }

    /// The memory footprint of the layout.
    pub open spec fn spec_cosize(&self) -> int {
        spec_cosize(self.sv(), self.dv())
    }

    /// Builds a layout from an explicit shape and stride.
    pub fn new<S: Shape, D: Shape>(shape: S, stride: D) -> (r: Layout)
        requires
            shape.spec_ok(),
            stride.spec_ok(),
            shape.spec_extents().len() == stride.spec_extents().len(),
        ensures
            r.wf(),
            r.shape@ == shape.spec_extents(),
            r.stride@ == stride.spec_extents(),
    {
        Layout { shape: shape.extents(), stride: stride.extents() }
    }

    /// Builds a layout from run-time lists of extents.
    pub fn from_extents(shape: Extents, stride: Extents) -> (r: Layout)
        requires
            shape@.len() == stride@.len(),
        ensures
            r.wf(),
            r.shape@ == shape@,
            r.stride@ == stride@,
    {
        Layout { shape, stride }
    }

    /// Whether all shape dimensions are known at compile time.
    pub fn shape_known(&self) -> (r: bool)
        ensures
            r == (forall|i: int| 0 <= i < self.shape@.len() ==> (#[trigger] self.shape@[i]).known),
    {
        self.shape.all_known()
    }

    /// Whether all stride dimensions are known at compile time.
    pub fn stride_known(&self) -> (r: bool)
        ensures
            r == (forall|i: int|
                0 <= i < self.stride@.len() ==> (#[trigger] self.stride@[i]).known),
    {
        self.stride.all_known()
    }

    /// Whether all shape *and* stride dimensions are known at compile time.
    pub fn all_dims_known(&self) -> (r: bool)
        ensures
            r == ((forall|i: int| 0 <= i < self.shape@.len() ==> (#[trigger] self.shape@[i]).known)
                && (forall|i: int|
                0 <= i < self.stride@.len() ==> (#[trigger] self.stride@[i]).known)),
    {
        self.shape.all_known() && self.stride.all_known()
    }

    /// Product of all shape dimensions if every one of them is known at compile time.
    pub fn static_product(&self) -> (r: Option<usize>)
        requires
            prefix_products_fit(self.shape@),
        ensures
            r == (if (forall|i: int|
                0 <= i < self.shape@.len() ==> (#[trigger] self.shape@[i]).known) {
                Some(prod(self.sv()) as usize)
            } else {
                None::<usize>
            }),
    {
        self.shape.static_product()
    }

    /// Size of the memory region this layout spans if every dimension is known at compile time.
    pub fn static_cosize(&self) -> (r: Option<usize>)
        requires
            self.wf(),
            1 + span(self.sv(), self.dv()) <= usize::MAX,
        ensures
            r == (if self.shape_stride_known() {
                Some(self.spec_cosize() as usize)
            } else {
                None::<usize>
            }),
    {
        if self.all_dims_known() {
            Some(self.cosize())
        } else {
            None
        }
    }

    /// Whether every shape and stride dimension is known at compile time.
    pub open spec fn shape_stride_known(&self) -> bool {
        (forall|i: int| 0 <= i < self.shape@.len() ==> (#[trigger] self.shape@[i]).known) && (
        forall|i: int| 0 <= i < self.stride@.len() ==> (#[trigger] self.stride@[i]).known)
    }

    /// The compile-time value of shape dimension `i`.
    pub fn static_shape(&self, i: usize) -> (r: usize)
        requires
            i < self.shape@.len(),
            self.shape@[i as int].known,
        ensures
            r == self.shape@[i as int].value,
    {
        self.shape.items[i].value
    }

    /// The compile-time value of stride dimension `i`.
    pub fn static_stride(&self, i: usize) -> (r: usize)
        requires
            i < self.stride@.len(),
            self.stride@[i as int].known,
        ensures
            r == self.stride@[i as int].value,
    {
        self.stride.items[i].value
    }

    /// The number of dimensions in the layout.
    pub fn rank(&self) -> (r: usize)
        ensures
            r == self.shape@.len(),
    {
        self.shape.rank()
    }

    /// Returns the full shape.
    pub fn shape_coord(&self) -> (r: Extents)
        ensures
            r@ == self.shape@,
    {
        self.shape.duplicate()
    }

    /// Returns the full stride.
    pub fn stride_coord(&self) -> (r: Extents)
        ensures
            r@ == self.stride@,
    {
        self.stride.duplicate()
    }

    /// Returns the total number of elements in the layout's domain: `m * n` for shape `(m, n)`.
    pub fn product(&self) -> (r: usize)
        requires
            prefix_products_fit(self.shape@),
        ensures
            r == prod(self.sv()),
    {
        self.shape.product()
    }

    /// Returns the total number of elements in the layout's domain. Alias for `product()`.
    pub fn size(&self) -> (r: usize)
        requires
            prefix_products_fit(self.shape@),
        ensures
            r == prod(self.sv()),
    {
        self.product()
    }

    /// Returns the size of the memory region spanned by the layout: for shape `(m, n)` and
    /// stride `(r, s)`, `(m - 1) * r + (n - 1) * s + 1`, and `0` when the domain is empty.
    pub fn cosize(&self) -> (r: usize)
        requires
            self.wf(),
            1 + span(self.sv(), self.dv()) <= usize::MAX,
        ensures
            r == self.spec_cosize(),
    {
        let ghost s = self.sv();
        let ghost d = self.dv();
        proof {
            lemma_vals_nonneg(self.shape@);
            lemma_vals_nonneg(self.stride@);
        }
        let mut acc: usize = 1;
        let mut i: usize = 0;
        assert(s.skip(0) =~= s);
        assert(d.skip(0) =~= d);
        while i < self.shape.items.len()
            invariant
                self.wf(),
                s == self.sv(),
                d == self.dv(),
                s.len() == d.len(),
                all_nonneg(s),
                all_nonneg(d),
                0 <= i <= s.len(),
                zero_free(s, i as int),
                acc + span(s.skip(i as int), d.skip(i as int)) == 1 + span(s, d),
                1 + span(s, d) <= usize::MAX,
            decreases s.len() - i,
        {
            let e = self.shape.items[i].value;
            let st = self.stride.items[i].value;
            proof {
                lemma_span_unfold(s, d, i as int);
            }
            if e == 0 {
                assert(has_zero(s)) by {
                    assert(s[i as int] == 0);
                }
                return 0;
            }
            proof {
                lemma_span_nonneg(s.skip(i + 1), d.skip(i + 1));
                lemma_mul_nonneg_local(e - 1, st as int);
            }
            acc = acc + (e - 1) * st;
            i += 1;
        }
        assert(!has_zero(s)) by {
            if has_zero(s) {
                let j = choose|j: int| 0 <= j < s.len() && s[j] == 0;
                assert(s[j] != 0);
            }
        }
        assert(s.skip(s.len() as int) =~= Seq::<int>::empty());
        acc
    }

    /// Converts multi-dimensional coordinates to a linear index: `sum crd[i] * stride[i]`.
    ///
    /// For a compact layout this is the inverse of [`idx2crd`](Self::idx2crd).
    pub fn crd2idx(&self, crd: &[usize]) -> (r: usize)
        requires
            self.wf(),
            crd@.len() == self.stride@.len(),
            self.spec_crd2idx(ivals(crd@)) <= usize::MAX,
        ensures
            r == self.spec_crd2idx(ivals(crd@)),
    {
        let ghost c = ivals(crd@);
        let ghost d = self.dv();
        proof {
            lemma_vals_nonneg(self.stride@);
        }
        let mut idx: usize = 0;
        let mut i: usize = 0;
        assert(c.skip(0) =~= c);
        assert(d.skip(0) =~= d);
        while i < crd.len()
            invariant
                self.wf(),
                c == ivals(crd@),
                d == self.dv(),
                c.len() == d.len(),
                all_nonneg(c),
                all_nonneg(d),
                0 <= i <= c.len(),
                idx + dot(c.skip(i as int), d.skip(i as int)) == dot(c, d),
                dot(c, d) <= usize::MAX,
            decreases c.len() - i,
        {
            proof {
                lemma_dot_unfold(c, d, i as int);
                lemma_dot_nonneg(c.skip(i + 1), d.skip(i + 1));
                lemma_mul_nonneg_local(crd[i as int] as int, d[i as int]);
            }
            idx = idx + crd[i] * self.stride.items[i].value;
            i += 1;
        }
        assert(c.skip(c.len() as int) =~= Seq::<int>::empty());
        idx
    }

    /// Converts a linear index to multi-dimensional coordinates: coordinate `i` is
    /// `(idx / stride[i]) % shape[i]`.
    pub fn idx2crd(&self, idx: usize) -> (r: Vec<usize>)
        requires
            self.wf(),
        ensures
            r@.len() == self.shape@.len(),
            forall|i: int|
                0 <= i < self.shape@.len() ==> #[trigger] r@[i] == spec_idx2crd_at(
                    self.sv(),
                    self.dv(),
                    idx as int,
                    i,
                ),
    {
        let mut crd: Vec<usize> = Vec::new();
        let mut i: usize = 0;
        while i < self.shape.items.len()
            invariant
                self.wf(),
                0 <= i <= self.shape@.len(),
                crd@.len() == i,
                forall|j: int|
                    0 <= j < i ==> #[trigger] crd@[j] == spec_idx2crd_at(
                        self.sv(),
                        self.dv(),
                        idx as int,
                        j,
                    ),
            decreases self.shape@.len() - i,
        {
            let s = self.shape.items[i].value;
            let d = self.stride.items[i].value;
            let dd = if d >= 1 {
                d
            } else {
                1
            };
            let c = if s == 0 {
                0
            } else {
                (idx / dd) % s
            };
            crd.push(c);
            i += 1;
        }
        crd
    }

    /// Reverses the order of dimensions in the layout. Turns row-major into column-major
    /// ordering, where the stride-1 dimension comes first.
    pub fn reverse(&self) -> (r: Layout)
        requires
            self.wf(),
        ensures
            r.wf(),
            r.shape@ == self.shape@.reverse(),
            r.stride@ == self.stride@.reverse(),
    {
        Layout { shape: self.shape.reversed(), stride: self.stride.reversed() }
    }

    /// Transposes the layout by reversing the order of dimensions. For 2D layouts this swaps
    /// rows and columns.
    pub fn transpose(&self) -> (r: Layout)
        requires
            self.wf(),
        ensures
            r.wf(),
            r.shape@ == self.shape@.reverse(),
            r.stride@ == self.stride@.reverse(),
    {
        self.reverse()
    }

    /// Converts every shape and stride dimension into a runtime value.
    pub fn make_dynamic(&self) -> (r: Layout)
        requires
            self.wf(),
        ensures
            r.wf(),
            r.sv() == self.sv(),
            r.dv() == self.dv(),
            forall|i: int| 0 <= i < r.shape@.len() ==> !(#[trigger] r.shape@[i]).known,
            forall|i: int| 0 <= i < r.stride@.len() ==> !(#[trigger] r.stride@[i]).known,
    {
        let r = Layout { shape: self.shape.to_dynamic(), stride: self.stride.to_dynamic() };
        assert(r.sv() =~= self.sv());
        assert(r.dv() =~= self.dv());
        r
    }

    /// Shape dimension `i`, with whether it is static.
    pub fn shape_dim(&self, i: usize) -> (r: Extent)
        requires
            i < self.shape@.len(),
        ensures
            r == self.shape@[i as int],
    {
        self.shape.items[i]
    }

    /// Stride dimension `i`, with whether it is static.
    pub fn stride_dim(&self, i: usize) -> (r: Extent)
        requires
            i < self.stride@.len(),
        ensures
            r == self.stride@[i as int],
    {
        self.stride.items[i]
    }

    /// Maps the `linear_idx`-th element of the domain, walked with the leftmost coordinate
    /// varying fastest, to its memory index.
    pub fn linear2idx(&self, linear_idx: usize) -> (r: usize)
        requires
            self.wf(),
            lin(self.sv(), self.dv(), linear_idx as int) <= usize::MAX,
        ensures
            r == spec_linear2idx(self.sv(), self.dv(), linear_idx as int),
    {
        let ghost s = self.sv();
        let ghost d = self.dv();
        proof {
            lemma_vals_nonneg(self.shape@);
            lemma_vals_nonneg(self.stride@);
        }
        let mut rest = linear_idx;
        let mut idx: usize = 0;
        let mut i: usize = 0;
        assert(s.skip(0) =~= s);
        assert(d.skip(0) =~= d);
        while i < self.shape.items.len()
            invariant
                self.wf(),
                s == self.sv(),
                d == self.dv(),
                s.len() == d.len(),
                all_nonneg(s),
                all_nonneg(d),
                0 <= i <= s.len(),
                zero_free(s, i as int),
                idx + lin(s.skip(i as int), d.skip(i as int), rest as int) == lin(
                    s,
                    d,
                    linear_idx as int,
                ),
                lin(s, d, linear_idx as int) <= usize::MAX,
            decreases s.len() - i,
        {
            let e = self.shape.items[i].value;
            let st = self.stride.items[i].value;
            proof {
                lemma_lin_unfold(s, d, i as int, rest as int);
            }
            if e == 0 {
                assert(has_zero(s)) by {
                    assert(s[i as int] == 0);
                }
                return 0;
            }
            proof {
                lemma_lin_nonneg(s.skip(i + 1), d.skip(i + 1), (rest / e) as int);
                lemma_mul_nonneg_local((rest % e) as int, st as int);
            }
            idx = idx + (rest % e) * st;
            rest = rest / e;
            i += 1;
        }
        assert(!has_zero(s)) by {
            if has_zero(s) {
                let j = choose|j: int| 0 <= j < s.len() && s[j] == 0;
                assert(s[j] != 0);
            }
        }
        assert(s.skip(s.len() as int) =~= Seq::<int>::empty());
        idx
    }

    /// Every memory index in the layout's domain, in the order used by
    /// [`linear2idx`](Self::linear2idx).
    pub fn iter(&self) -> (r: Vec<usize>)
        requires
            self.wf(),
            prefix_products_fit(self.shape@),
            forall|k: int|
                0 <= k < prod(self.sv()) ==> #[trigger] lin(self.sv(), self.dv(), k) <= usize::MAX,
        ensures
            r@.len() == prod(self.sv()),
            forall|k: int|
                0 <= k < r@.len() ==> #[trigger] r@[k] == spec_linear2idx(self.sv(), self.dv(), k),
    {
        let n = self.size();
        let mut r: Vec<usize> = Vec::new();
        let mut k: usize = 0;
        while k < n
            invariant
                self.wf(),
                n == prod(self.sv()),
                0 <= k <= n,
                r@.len() == k,
                forall|j: int|
                    0 <= j < prod(self.sv()) ==> #[trigger] lin(self.sv(), self.dv(), j)
                        <= usize::MAX,
                forall|j: int|
                    0 <= j < k ==> #[trigger] r@[j] == spec_linear2idx(self.sv(), self.dv(), j),
            decreases n - k,
        {
            assert(lin(self.sv(), self.dv(), k as int) <= usize::MAX);
            r.push(self.linear2idx(k));
            k += 1;
        }
        r
    }

    /// Whether two layouts describe the same mapping, regardless of which dimensions each one
    /// knows at compile time.
    pub fn dims_eq(&self, other: &Layout) -> (r: bool)
        ensures
            r == (self.sv() == other.sv() && self.dv() == other.dv()),
    {
        let a = same_values(&self.shape, &other.shape);
        let b = same_values(&self.stride, &other.stride);
        a && b
    }

    /// Writes the layout as `(shape:stride)`, e.g. `((4, 8):(8, 1))`.
    pub fn to_string(&self) -> (r: String)
        ensures
            r@ == seq!['('] + tuple_text(self.sv()) + seq![':'] + tuple_text(self.dv()) + seq![
                ')',
            ],
    {
        proof {
            reveal_strlit("(");
            reveal_strlit(":");
            reveal_strlit(")");
        }
        let mut out = String::new();
        out.append("(");
        self.shape.write_to(&mut out);
        out.append(":");
        self.stride.write_to(&mut out);
        out.append(")");
        assert(out@ =~= seq!['('] + tuple_text(self.sv()) + seq![':'] + tuple_text(self.dv())
            + seq![')']);
        out
    }
}

/// Whether two lists of dimensions have the same extents.
fn same_values(a: &Extents, b: &Extents) -> (r: bool)
    ensures
        r == (vals(a@) == vals(b@)),
{
    if a.items.len() != b.items.len() {
        assert(vals(a@).len() != vals(b@).len());
        return false;
    }
    let mut i: usize = 0;
    while i < a.items.len()
        invariant
            a@.len() == b@.len(),
            0 <= i <= a@.len(),
            forall|j: int| 0 <= j < i ==> #[trigger] a@[j].value == b@[j].value,
        decreases a@.len() - i,
    {
        if a.items[i].value != b.items[i].value {
            assert(vals(a@)[i as int] != vals(b@)[i as int]);
            return false;
        }
        i += 1;
    }
    assert(vals(a@) =~= vals(b@));
    true
}

proof fn lemma_mul_nonneg_local(a: int, b: int)
    requires
        a >= 0,
        b >= 0,
    ensures
        a * b >= 0,
{
    vstd::arithmetic::mul::lemma_mul_nonnegative(a, b);
}

} // verus!
