//! Row-major and column-major stride generation.
use vstd::prelude::*;
use crate::dim::Extent;
use crate::layout::Layout;
use crate::seqmath::{prod, lemma_prod_front, lemma_prod_pos, lemma_prod_nonneg};
use crate::shape::{Extents, Shape, vals, lemma_vals_nonneg};

verus! {

/// Whether every dimension after `i` is known at compile time.
pub open spec fn known_after(s: Seq<Extent>, i: int) -> bool {
    forall|j: int| i < j < s.len() ==> (#[trigger] s[j]).known
}

/// Whether every dimension before `i` is known at compile time.
pub open spec fn known_before(s: Seq<Extent>, i: int) -> bool {
    forall|j: int| 0 <= j < i ==> (#[trigger] s[j]).known
}

/// Row-major (C-order) strides: the rightmost dimension has stride 1 and each preceding
/// dimension has stride equal to the product of all following ones. A stride is static when
/// every dimension feeding into it is.
pub open spec fn row_major_stride(s: Seq<Extent>) -> Seq<Extent> {
    Seq::new(
        s.len(),
        |i: int| Extent { value: prod(vals(s).skip(i + 1)) as usize, known: known_after(s, i) },
    )
}

/// Column-major (Fortran-order) strides: the leftmost dimension has stride 1 and each
/// following dimension has stride equal to the product of all preceding ones.
pub open spec fn col_major_stride(s: Seq<Extent>) -> Seq<Extent> {
    Seq::new(
        s.len(),
        |i: int| Extent { value: prod(vals(s).take(i)) as usize, known: known_before(s, i) },
    )
}

/// The products that building row-major strides forms stay within `usize`: the product of
/// every run of trailing dimensions short of the whole shape.
pub open spec fn row_major_fits(s: Seq<Extent>) -> bool {
    forall|k: int| 1 <= k <= s.len() ==> #[trigger] prod(vals(s).skip(k)) <= usize::MAX
}

/// The products that building column-major strides forms stay within `usize`: the product of
/// every run of consecutive dimensions ending before the last one.
pub open spec fn col_major_fits(s: Seq<Extent>) -> bool {
    forall|j: int, i: int|
        0 <= j < i < s.len() ==> #[trigger] prod(vals(s).subrange(j, i)) <= usize::MAX
}

/// Computes the row-major strides of a shape.
pub fn row_major_stride_of(shape: &Extents) -> (r: Extents)
    requires
        row_major_fits(shape@),
    ensures
        r@ == row_major_stride(shape@),
{
    let n = shape.items.len();
    let ghost s = vals(shape@);
    let mut items: Vec<Extent> = Vec::new();
    let mut k: usize = 0;
    while k < n
        invariant
            n == shape@.len(),
            0 <= k <= n,
            items@.len() == k,
        decreases n - k,
    {
        items.push(Extent { value: 1, known: true });
        k += 1;
    }
    let mut acc: usize = 1;
    let mut known = true;
    let mut i: usize = n;
    proof {
        lemma_vals_nonneg(shape@);
        assert(s.skip(n as int) =~= Seq::<int>::empty());
    }
    while i > 0
        invariant
            n == shape@.len(),
            s == vals(shape@),
            0 <= i <= n,
            items@.len() == n,
            row_major_fits(shape@),
            i > 0 ==> acc == prod(s.skip(i as int)),
            i > 0 ==> known == known_after(shape@, i - 1),
            forall|j: int| i <= j < n ==> #[trigger] items@[j] == row_major_stride(shape@)[j],
        decreases i,
    {
        i -= 1;
        let e = shape.items[i];
        proof {
            assert(prod(s.skip(i + 1)) <= usize::MAX);
        }
        items.set(i, Extent { value: acc, known });
        if i > 0 {
            proof {
                lemma_prod_front(s.skip(i as int));
                assert(s.skip(i as int).skip(1) =~= s.skip(i + 1));
                assert(prod(s.skip(i as int)) <= usize::MAX);
                vstd::arithmetic::mul::lemma_mul_is_commutative(e.value as int, acc as int);
            }
            acc = e.value * acc;
            known = e.known && known;
        }
    }
    Extents { items }
}

/// Computes the column-major strides of a shape.
pub fn col_major_stride_of(shape: &Extents) -> (r: Extents)
    requires
        col_major_fits(shape@),
    ensures
        r@ == col_major_stride(shape@),
{
    let n = shape.items.len();
    let ghost s = vals(shape@);
    let mut items: Vec<Extent> = Vec::new();
    let mut acc: usize = 1;
    let mut known = true;
    let mut i: usize = 0;
    proof {
        lemma_vals_nonneg(shape@);
        assert(s.take(0) =~= Seq::<int>::empty());
    }
    while i < n
        invariant
            n == shape@.len(),
            s == vals(shape@),
            0 <= i <= n,
            items@.len() == i,
            col_major_fits(shape@),
            i < n ==> acc == prod(s.take(i as int)),
            i < n ==> known == known_before(shape@, i as int),
            forall|j: int| 0 <= j < i ==> #[trigger] items@[j] == col_major_stride(shape@)[j],
        decreases n - i,
    {
        items.push(Extent { value: acc, known });
        let e = shape.items[i];
        if i + 1 < n {
            proof {
                assert(s.take(i + 1).drop_last() =~= s.take(i as int));
                assert(s.subrange(0, i + 1) =~= s.take(i + 1));
                assert(prod(s.subrange(0, i + 1)) <= usize::MAX);
            }
            acc = acc * e.value;
            known = known && e.known;
        }
        i += 1;
    }
    Extents { items }
}

/// Shapes that can be given row-major (C-order) strides: the rightmost dimension has stride
/// 1 and each preceding dimension has stride equal to the product of all following ones.
pub trait RowMajor: Shape {
    /// Computes the row-major strides.
    fn row_major_stride(self) -> (r: Extents)
        requires
            self.spec_ok(),
            row_major_fits(self.spec_extents()),
        ensures
            r@ == row_major_stride(self.spec_extents()),
    ;
}

impl<S: Shape> RowMajor for S {
    fn row_major_stride(self) -> (r: Extents) {
        let shape = self.extents();
        row_major_stride_of(&shape)
    }
}

/// Shapes that can be given column-major (Fortran-order) strides: the leftmost dimension has
/// stride 1 and each following dimension has stride equal to the product of all preceding
/// ones.
pub trait ColMajor: Shape {
    /// Computes the column-major strides.
    fn col_major_stride(self) -> (r: Extents)
        requires
            self.spec_ok(),
            col_major_fits(self.spec_extents()),
        ensures
            r@ == col_major_stride(self.spec_extents()),
    ;
}

impl<S: Shape> ColMajor for S {
    fn col_major_stride(self) -> (r: Extents) {
        let shape = self.extents();
        col_major_stride_of(&shape)
    }
}

/// Builds a row-major layout, where the last dimension varies fastest in memory (the C and
/// Python default).
pub fn row_major<S: RowMajor>(shape: S) -> (r: Layout)
    requires
        shape.spec_ok(),
        row_major_fits(shape.spec_extents()),
    ensures
        r.wf(),
        r.shape@ == shape.spec_extents(),
        r.stride@ == row_major_stride(shape.spec_extents()),
{
    let shape = shape.extents();
    let stride = row_major_stride_of(&shape);
    Layout::from_extents(shape, stride)
}

/// Builds a column-major layout, where the first dimension varies fastest in memory (the
/// Fortran and MATLAB default).
pub fn col_major<S: ColMajor>(shape: S) -> (r: Layout)
    requires
        shape.spec_ok(),
        col_major_fits(shape.spec_extents()),
    ensures
        r.wf(),
        r.shape@ == shape.spec_extents(),
        r.stride@ == col_major_stride(shape.spec_extents()),
{
    let shape = shape.extents();
    let stride = col_major_stride_of(&shape);
    Layout::from_extents(shape, stride)
}

} // verus!
