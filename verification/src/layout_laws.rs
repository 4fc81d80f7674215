//! What holds of every layout, and of row-major and column-major layouts in particular.
use vstd::prelude::*;
use vstd::arithmetic::div_mod::{
    lemma_div_multiples_vanish_fancy, lemma_hoist_over_denominator, lemma_mod_multiples_vanish,
    lemma_breakdown, lemma_div_pos_is_pos, lemma_fundamental_div_mod,
};
use vstd::arithmetic::mul::{
    lemma_mul_inequality, lemma_mul_is_commutative, lemma_mul_is_associative,
    lemma_mul_is_distributive_add, lemma_mul_nonnegative, lemma_mul_is_distributive_sub,
};
use crate::seqmath::{
    prod, dot, span, lin, has_zero, in_box, all_nonneg, lemma_prod_front, lemma_prod_pos,
    lemma_prod_concat, lemma_prod_zero, lemma_prod_single, lemma_dot_le_span, lemma_prod_nonneg,
};
use crate::layout::{Layout, spec_cosize, spec_idx2crd_at, spec_linear2idx, ivals};
use crate::major::{row_major_stride, col_major_stride, row_major_fits, col_major_fits};
use crate::shape::{vals, lemma_vals_nonneg};
use crate::permutation::{
    flat_digits, flat_index, law_digits_of_flat_index, law_flat_index_in_range,
    law_flat_index_of_digits,
};

verus! {

/// Row-major strides of a shape: stride `i` is the product of the extents after `i`.
pub open spec fn rm_strides(s: Seq<int>) -> Seq<int> {
    Seq::new(s.len(), |i: int| prod(s.skip(i + 1)))
}

/// Column-major strides of a shape: stride `i` is the product of the extents before `i`.
pub open spec fn cm_strides(s: Seq<int>) -> Seq<int> {
    Seq::new(s.len(), |i: int| prod(s.take(i)))
}

/// Whether every extent is positive.
pub open spec fn all_pos(s: Seq<int>) -> bool {
    forall|i: int| 0 <= i < s.len() ==> 0 < #[trigger] s[i]
}

proof fn lemma_in_box_pos(c: Seq<int>, s: Seq<int>)
    requires
        in_box(c, s),
    ensures
        all_pos(s),
        !has_zero(s),
        all_nonneg(c),
        all_nonneg(s),
{
    assert forall|i: int| 0 <= i < s.len() implies 0 < #[trigger] s[i] by {
        assert(0 <= c[i] < s[i]);
    }
    assert forall|i: int| 0 <= i < c.len() implies 0 <= #[trigger] c[i] by {
        assert(0 <= c[i] < s[i]);
    }
}

proof fn lemma_in_box_tail(c: Seq<int>, s: Seq<int>)
    requires
        in_box(c, s),
        s.len() > 0,
    ensures
        in_box(c.skip(1), s.skip(1)),
        0 <= c[0] < s[0],
{
    assert forall|i: int| 0 <= i < s.skip(1).len() implies 0 <= #[trigger] c.skip(1)[i] < s.skip(
        1,
    )[i] by {
        assert(0 <= c[i + 1] < s[i + 1]);
    }
}

proof fn lemma_all_pos_tail(s: Seq<int>)
    requires
        all_pos(s),
        s.len() > 0,
    ensures
        all_pos(s.skip(1)),
        s[0] > 0,
{
    assert forall|i: int| 0 <= i < s.skip(1).len() implies 0 < #[trigger] s.skip(1)[i] by {
        assert(0 < s[i + 1]);
    }
}

/// The strides of a row-major layout are those of its tail, behind the product of the tail.
proof fn lemma_rm_front(s: Seq<int>)
    requires
        s.len() > 0,
    ensures
        rm_strides(s)[0] == prod(s.skip(1)),
        rm_strides(s).skip(1) == rm_strides(s.skip(1)),
{
    assert forall|i: int| 0 <= i < s.len() - 1 implies rm_strides(s).skip(1)[i] == rm_strides(
        s.skip(1),
    )[i] by {
        assert(s.skip(i + 2) =~= s.skip(1).skip(i + 1));
    }
    assert(rm_strides(s).skip(1) =~= rm_strides(s.skip(1)));
}

/// A coordinate inside a shape lands below the product of the shape under row-major strides.
proof fn lemma_rm_dot_bound(c: Seq<int>, s: Seq<int>)
    requires
        in_box(c, s),
    ensures
        0 <= dot(c, rm_strides(s)) < prod(s),
    decreases s.len(),
{
    if s.len() == 0 {
    } else {
        lemma_in_box_tail(c, s);
        lemma_in_box_pos(c, s);
        lemma_rm_front(s);
        lemma_rm_dot_bound(c.skip(1), s.skip(1));
        lemma_prod_front(s);
        let p = prod(s.skip(1));
        let t = dot(c.skip(1), rm_strides(s.skip(1)));
        lemma_mul_nonnegative(c[0], p);
        lemma_mul_inequality(c[0], s[0] - 1, p);
        lemma_mul_is_distributive_sub(p, s[0], 1);
        lemma_mul_is_commutative(p, s[0]);
        lemma_mul_is_commutative(p, s[0] - 1);
    }
}

/// The product of a shape splits at any point.
proof fn lemma_prod_split(s: Seq<int>, k: int)
    requires
        0 <= k <= s.len(),
    ensures
        prod(s) == prod(s.take(k)) * prod(s.skip(k)),
{
    assert(s =~= s.take(k) + s.skip(k));
    lemma_prod_concat(s.take(k), s.skip(k));
}

/// Under row-major strides, coordinate `i` of the index of an in-box coordinate `c` is `c[i]`.
proof fn lemma_rm_coordinate(c: Seq<int>, s: Seq<int>, i: int)
    requires
        in_box(c, s),
        0 <= i < s.len(),
    ensures
        rm_strides(s)[i] >= 1,
        (dot(c, rm_strides(s)) / rm_strides(s)[i]) % s[i] == c[i],
    decreases s.len(),
{
    lemma_in_box_tail(c, s);
    lemma_in_box_pos(c, s);
    lemma_rm_front(s);
    let tail = s.skip(1);
    let p = prod(tail);
    let t = dot(c.skip(1), rm_strides(tail));
    lemma_all_pos_tail(s);
    lemma_prod_pos(tail);
    lemma_rm_dot_bound(c.skip(1), tail);
    let idx = dot(c, rm_strides(s));
    assert(idx == c[0] * p + t);
    if i == 0 {
        lemma_mul_is_commutative(c[0], p);
        lemma_div_multiples_vanish_fancy(c[0], t, p);
        vstd::arithmetic::div_mod::lemma_small_mod(c[0] as nat, s[0] as nat);
    } else {
        lemma_rm_coordinate(c.skip(1), tail, i - 1);
        let q = rm_strides(tail)[i - 1];
        assert(rm_strides(s)[i] == q);
        assert(q == prod(tail.skip(i)));
        // prod(tail) == prod(tail.take(i - 1)) * s[i] * q
        lemma_prod_split(tail, i - 1);
        let a = prod(tail.take(i - 1));
        lemma_prod_front(tail.skip(i - 1));
        assert(tail.skip(i - 1)[0] == s[i]);
        assert(tail.skip(i - 1).skip(1) =~= tail.skip(i));
        assert(p == a * (s[i] * q));
        lemma_prod_pos(tail.take(i - 1));
        lemma_mul_is_associative(a, s[i], q);
        let m = c[0] * a * s[i];
        assert(c[0] * p == m * q) by {
            lemma_mul_is_associative(c[0], a * s[i], q);
            lemma_mul_is_associative(c[0], a, s[i]);
        }
        lemma_hoist_over_denominator(t, m, q as nat);
        assert(idx / q == t / q + m);
        lemma_mul_nonnegative(c[0], a);
        lemma_div_pos_is_pos(t, q);
        lemma_mul_is_commutative(c[0] * a, s[i]);
        lemma_mod_multiples_vanish(c[0] * a, t / q, s[i]);
        assert(s[i] == tail[i - 1]);
        assert(c[i] == c.skip(1)[i - 1]);
    }
}

/// The span of a row-major layout over a shape with no zero extent is one short of its size.
proof fn lemma_rm_span(s: Seq<int>)
    requires
        all_pos(s),
    ensures
        span(s, rm_strides(s)) == prod(s) - 1,
    decreases s.len(),
{
    if s.len() > 0 {
        lemma_all_pos_tail(s);
        lemma_rm_front(s);
        lemma_rm_span(s.skip(1));
        lemma_prod_front(s);
        let p = prod(s.skip(1));
        lemma_mul_is_distributive_sub(p, s[0], 1);
        lemma_mul_is_commutative(p, s[0]);
        lemma_mul_is_commutative(p, s[0] - 1);
    }
}

/// The dot product of two sequences is that of their reversals.
proof fn lemma_dot_reverse(c: Seq<int>, d: Seq<int>)
    requires
        c.len() == d.len(),
    ensures
        dot(c.reverse(), d.reverse()) == dot(c, d),
    decreases c.len(),
{
    if c.len() > 0 {
        lemma_dot_reverse(c.skip(1), d.skip(1));
        lemma_dot_snoc(c.skip(1).reverse(), d.skip(1).reverse(), c[0], d[0]);
        assert(c.reverse() =~= c.skip(1).reverse().push(c[0]));
        assert(d.reverse() =~= d.skip(1).reverse().push(d[0]));
    }
}

/// Appending a pair of entries adds their product to the dot product.
proof fn lemma_dot_snoc(c: Seq<int>, d: Seq<int>, x: int, y: int)
    requires
        c.len() == d.len(),
    ensures
        dot(c.push(x), d.push(y)) == dot(c, d) + x * y,
    decreases c.len(),
{
    if c.len() > 0 {
        lemma_dot_snoc(c.skip(1), d.skip(1), x, y);
        assert(c.push(x).skip(1) =~= c.skip(1).push(x));
        assert(d.push(y).skip(1) =~= d.skip(1).push(y));
        assert(c.push(x)[0] == c[0]);
        assert(d.push(y)[0] == d[0]);
        assert(dot(c.push(x), d.push(y)) == c[0] * d[0] + dot(c.skip(1).push(x), d.skip(1).push(y)));
    } else {
        assert(c.push(x).skip(1) =~= Seq::<int>::empty());
        assert(d.push(y).skip(1) =~= Seq::<int>::empty());
        assert(c.push(x)[0] == x);
        assert(d.push(y)[0] == y);
        assert(dot(Seq::<int>::empty(), Seq::<int>::empty()) == 0);
        assert(dot(c.push(x), d.push(y)) == x * y + dot(c.push(x).skip(1), d.push(y).skip(1)));
        assert(c =~= Seq::<int>::empty());
    }
}

/// The product of a reversed sequence is the product of the sequence.
proof fn lemma_prod_reverse(s: Seq<int>)
    ensures
        prod(s.reverse()) == prod(s),
    decreases s.len(),
{
    if s.len() > 0 {
        lemma_prod_reverse(s.skip(1));
        lemma_prod_front(s);
        assert(s.reverse() =~= s.skip(1).reverse().push(s[0]));
        assert(s.reverse().drop_last() =~= s.skip(1).reverse());
        lemma_mul_is_commutative(s[0], prod(s.skip(1)));
    }
}

/// Reversing row-major strides gives the column-major strides of the reversed shape.
proof fn lemma_rm_reverse_is_cm(s: Seq<int>)
    ensures
        rm_strides(s).reverse() == cm_strides(s.reverse()),
{
    let n = s.len();
    assert forall|i: int| 0 <= i < n implies rm_strides(s).reverse()[i] == cm_strides(
        s.reverse(),
    )[i] by {
        assert(s.reverse().take(i) =~= s.skip(n - i).reverse());
        lemma_prod_reverse(s.skip(n - i));
        assert(n - 1 - i + 1 == n - i);
    }
    assert(rm_strides(s).reverse() =~= cm_strides(s.reverse()));
}

proof fn lemma_layout_vals(l: Layout)
    ensures
        all_nonneg(l.sv()),
        all_nonneg(l.dv()),
        l.sv().len() == l.shape@.len(),
        l.dv().len() == l.stride@.len(),
{
    lemma_vals_nonneg(l.shape@);
    lemma_vals_nonneg(l.stride@);
}

/// The strides of a layout built by [`row_major`](crate::row_major).
proof fn lemma_row_major_vals(l: Layout)
    requires
        l.stride@ == row_major_stride(l.shape@),
        row_major_fits(l.shape@),
    ensures
        l.dv() == rm_strides(l.sv()),
{
    let s = l.sv();
    assert forall|i: int| 0 <= i < s.len() implies l.dv()[i] == rm_strides(s)[i] by {
        assert(vals(l.shape@).skip(i + 1) == s.skip(i + 1));
        assert(prod(vals(l.shape@).skip(i + 1)) <= usize::MAX);
        lemma_vals_nonneg(l.shape@);
        assert(all_nonneg(s.skip(i + 1)));
        lemma_prod_nonneg(s.skip(i + 1));
    }
    assert(l.dv() =~= rm_strides(s));
}

/// The strides of a layout built by [`col_major`](crate::col_major).
proof fn lemma_col_major_vals(l: Layout)
    requires
        l.stride@ == col_major_stride(l.shape@),
        col_major_fits(l.shape@),
    ensures
        l.dv() == cm_strides(l.sv()),
{
    let s = l.sv();
    assert forall|i: int| 0 <= i < s.len() implies l.dv()[i] == cm_strides(s)[i] by {
        lemma_vals_nonneg(l.shape@);
        assert(all_nonneg(s.take(i)));
        lemma_prod_nonneg(s.take(i));
        if i > 0 {
            assert(prod(vals(l.shape@).subrange(0, i)) <= usize::MAX);
            assert(s.subrange(0, i) =~= s.take(i));
        } else {
            assert(s.take(0) =~= Seq::<int>::empty());
        }
    }
    assert(l.dv() =~= cm_strides(s));
}

/// Every coordinate inside the shape of a layout lands inside the layout's memory footprint.
pub proof fn law_crd2idx_below_cosize(l: Layout, c: Seq<int>)
    requires
        l.wf(),
        in_box(c, l.sv()),
    ensures
        0 <= l.spec_crd2idx(c) < l.spec_cosize(),
{
    lemma_layout_vals(l);
    lemma_in_box_pos(c, l.sv());
    lemma_dot_le_span(c, l.sv(), l.dv());
}

/// A row-major layout is compact: its memory footprint is exactly its number of elements.
pub proof fn law_row_major_is_compact(l: Layout)
    requires
        l.wf(),
        l.stride@ == row_major_stride(l.shape@),
        row_major_fits(l.shape@),
    ensures
        l.spec_cosize() == prod(l.sv()),
{
    lemma_row_major_vals(l);
    lemma_layout_vals(l);
    let s = l.sv();
    if has_zero(s) {
        lemma_prod_zero(s);
    } else {
        assert(all_pos(s)) by {
            assert forall|i: int| 0 <= i < s.len() implies 0 < #[trigger] s[i] by {
                if s[i] == 0 {
                    assert(has_zero(s));
                }
            }
        }
        lemma_rm_span(s);
    }
}

/// For a row-major layout, `idx2crd` undoes `crd2idx` on every coordinate inside the shape.
pub proof fn law_row_major_idx2crd_inverts_crd2idx(l: Layout, c: Seq<int>)
    requires
        l.wf(),
        l.stride@ == row_major_stride(l.shape@),
        row_major_fits(l.shape@),
        in_box(c, l.sv()),
    ensures
        forall|i: int|
            0 <= i < c.len() ==> #[trigger] spec_idx2crd_at(l.sv(), l.dv(), l.spec_crd2idx(c), i)
                == c[i],
{
    lemma_row_major_vals(l);
    lemma_in_box_pos(c, l.sv());
    assert forall|i: int| 0 <= i < c.len() implies #[trigger] spec_idx2crd_at(
        l.sv(),
        l.dv(),
        l.spec_crd2idx(c),
        i,
    ) == c[i] by {
        lemma_rm_coordinate(c, l.sv(), i);
    }
}

/// Transposing a layout maps the reversed coordinate where the layout maps the coordinate.
pub proof fn law_transpose_maps_reversed_coordinates(l: Layout, t: Layout, c: Seq<int>)
    requires
        l.wf(),
        t.shape@ == l.shape@.reverse(),
        t.stride@ == l.stride@.reverse(),
        c.len() == l.stride@.len(),
    ensures
        t.spec_crd2idx(c.reverse()) == l.spec_crd2idx(c),
{
    assert(t.dv() =~= l.dv().reverse());
    lemma_dot_reverse(c, l.dv());
}

/// Transposing a row-major layout gives the column-major layout of the reversed shape.
pub proof fn law_transposed_row_major_is_col_major(l: Layout, t: Layout)
    requires
        l.wf(),
        l.stride@ == row_major_stride(l.shape@),
        row_major_fits(l.shape@),
        t.shape@ == l.shape@.reverse(),
        t.stride@ == l.stride@.reverse(),
    ensures
        t.dv() == cm_strides(t.sv()),
{
    lemma_row_major_vals(l);
    assert(t.dv() =~= l.dv().reverse());
    assert(t.sv() =~= l.sv().reverse());
    lemma_rm_reverse_is_cm(l.sv());
}

/// For a column-major layout, `idx2crd` undoes `crd2idx` on every coordinate inside the shape.
pub proof fn law_col_major_idx2crd_inverts_crd2idx(l: Layout, c: Seq<int>)
    requires
        l.wf(),
        l.stride@ == col_major_stride(l.shape@),
        col_major_fits(l.shape@),
        in_box(c, l.sv()),
    ensures
        forall|i: int|
            0 <= i < c.len() ==> #[trigger] spec_idx2crd_at(l.sv(), l.dv(), l.spec_crd2idx(c), i)
                == c[i],
{
    lemma_col_major_vals(l);
    let s = l.sv();
    let n = s.len();
    let rs = s.reverse();
    let rc = c.reverse();
    // The column-major strides of `s` are the reversed row-major strides of `rs`.
    lemma_rm_reverse_is_cm(rs);
    assert(rs.reverse() =~= s);
    assert(l.dv() == rm_strides(rs).reverse());
    assert(in_box(rc, rs)) by {
        assert forall|i: int| 0 <= i < rs.len() implies 0 <= #[trigger] rc[i] < rs[i] by {
            assert(0 <= c[n - 1 - i] < s[n - 1 - i]);
        }
    }
    lemma_dot_reverse(rc, rm_strides(rs));
    assert(rc.reverse() =~= c);
    assert(rm_strides(rs).reverse().reverse() =~= rm_strides(rs));
    assert(l.spec_crd2idx(c) == dot(rc, rm_strides(rs)));
    lemma_in_box_pos(c, s);
    assert forall|i: int| 0 <= i < c.len() implies #[trigger] spec_idx2crd_at(
        l.sv(),
        l.dv(),
        l.spec_crd2idx(c),
        i,
    ) == c[i] by {
        lemma_rm_coordinate(rc, rs, n - 1 - i);
        assert(l.dv()[i] == rm_strides(rs)[n - 1 - i]);
        assert(s[i] == rs[n - 1 - i]);
        assert(c[i] == rc[n - 1 - i]);
    }
}

/// Walking a shape with no zero extent, the `r`-th element has the coordinate whose
/// mixed-radix digits `r` is, leftmost fastest.
proof fn lemma_lin_is_dot_of_digits(s: Seq<int>, d: Seq<int>, r: int)
    requires
        all_pos(s),
        d.len() >= s.len(),
    ensures
        lin(s, d, r) == dot(flat_digits(r, s), d),
    decreases s.len(),
{
    if s.len() > 0 {
        lemma_all_pos_tail(s);
        lemma_lin_is_dot_of_digits(s.skip(1), d.skip(1), r / s[0]);
        let f = flat_digits(r, s);
        assert(f.skip(1) =~= flat_digits(r / s[0], s.skip(1)));
    }
}

/// The `k`-th element of the walk of a layout is the memory index of the coordinate whose
/// mixed-radix digits `k` is, leftmost fastest.
pub proof fn law_linear2idx_is_crd2idx_of_digits(l: Layout, k: int)
    requires
        l.wf(),
        !has_zero(l.sv()),
    ensures
        spec_linear2idx(l.sv(), l.dv(), k) == l.spec_crd2idx(flat_digits(k, l.sv())),
{
    lemma_layout_vals(l);
    let s = l.sv();
    assert(all_pos(s)) by {
        assert forall|i: int| 0 <= i < s.len() implies 0 < #[trigger] s[i] by {
            if s[i] == 0 {
                assert(has_zero(s));
            }
        }
    }
    lemma_lin_is_dot_of_digits(s, l.dv(), k);
}

/// The walk over column-major strides scaled by `m` lands at `m` times the position modulo
/// the size.
proof fn lemma_lin_cm(s: Seq<int>, m: int, r: int)
    requires
        all_pos(s),
        m >= 0,
        r >= 0,
    ensures
        lin(s, cm_strides(s).map_values(|x: int| m * x), r) == m * (r % prod(s)),
    decreases s.len(),
{
    let d = cm_strides(s).map_values(|x: int| m * x);
    if s.len() == 0 {
        assert(r % 1 == 0);
        lemma_mul_is_commutative(m, 0);
    } else {
        lemma_all_pos_tail(s);
        let tail = s.skip(1);
        let m2 = m * s[0];
        lemma_mul_nonnegative(m, s[0]);
        lemma_div_pos_is_pos(r, s[0]);
        lemma_lin_cm(tail, m2, r / s[0]);
        let d2 = cm_strides(tail).map_values(|x: int| m2 * x);
        assert(d.skip(1) =~= d2) by {
            assert forall|i: int| 0 <= i < d2.len() implies d.skip(1)[i] == d2[i] by {
                assert(s.take(i + 1) =~= seq![s[0]] + tail.take(i));
                lemma_prod_concat(seq![s[0]], tail.take(i));
                lemma_prod_single(s[0]);
                lemma_mul_is_associative(m, s[0], prod(tail.take(i)));
            }
        }
        assert(s.take(0) =~= Seq::<int>::empty());
        assert(d[0] == m * 1);
        lemma_prod_pos(tail);
        lemma_breakdown(r, s[0], prod(tail));
        lemma_prod_front(s);
        lemma_mul_is_associative(m, s[0], (r / s[0]) % prod(tail));
        lemma_mul_is_distributive_add(m, s[0] * ((r / s[0]) % prod(tail)), r % s[0]);
        lemma_mul_is_commutative(m, r % s[0]);
    }
}

/// Walking a column-major layout visits memory in order: its `k`-th element is at index `k`.
pub proof fn law_col_major_walk_is_identity(l: Layout, k: int)
    requires
        l.wf(),
        l.stride@ == col_major_stride(l.shape@),
        col_major_fits(l.shape@),
        0 <= k < prod(l.sv()),
    ensures
        spec_linear2idx(l.sv(), l.dv(), k) == k,
{
    lemma_col_major_vals(l);
    lemma_layout_vals(l);
    let s = l.sv();
    if has_zero(s) {
        lemma_prod_zero(s);
    } else {
        assert(all_pos(s)) by {
            assert forall|i: int| 0 <= i < s.len() implies 0 < #[trigger] s[i] by {
                if s[i] == 0 {
                    assert(has_zero(s));
                }
            }
        }
        lemma_lin_cm(s, 1, k);
        assert(cm_strides(s).map_values(|x: int| 1 * x) =~= cm_strides(s));
        vstd::arithmetic::div_mod::lemma_small_mod(k as nat, prod(s) as nat);
    }
}

/// The entrywise sum of two coordinates.
pub open spec fn add_coords(a: Seq<int>, b: Seq<int>) -> Seq<int> {
    Seq::new(a.len(), |i: int| a[i] + b[i])
}

/// The last coordinate of a shape: each extent less one.
pub open spec fn last_coord(s: Seq<int>) -> Seq<int> {
    Seq::new(s.len(), |i: int| s[i] - 1)
}

proof fn lemma_dot_add(a: Seq<int>, b: Seq<int>, d: Seq<int>)
    requires
        a.len() == b.len(),
        d.len() >= a.len(),
    ensures
        dot(add_coords(a, b), d) == dot(a, d) + dot(b, d),
    decreases a.len(),
{
    if a.len() > 0 {
        lemma_dot_add(a.skip(1), b.skip(1), d.skip(1));
        assert(add_coords(a, b).skip(1) =~= add_coords(a.skip(1), b.skip(1)));
        vstd::arithmetic::mul::lemma_mul_is_distributive_add_other_way(d[0], a[0], b[0]);
    }
}

proof fn lemma_dot_zero(c: Seq<int>, d: Seq<int>)
    requires
        forall|i: int| 0 <= i < c.len() ==> #[trigger] c[i] == 0,
    ensures
        dot(c, d) == 0,
    decreases c.len(),
{
    if c.len() > 0 {
        assert(c[0] == 0);
        lemma_dot_zero(c.skip(1), d.skip(1));
    }
}

/// `crd2idx` is additive over coordinates, and the origin is at index 0.
pub proof fn law_crd2idx_is_additive(l: Layout, a: Seq<int>, b: Seq<int>)
    requires
        l.wf(),
        a.len() == l.stride@.len(),
        b.len() == l.stride@.len(),
    ensures
        l.spec_crd2idx(add_coords(a, b)) == l.spec_crd2idx(a) + l.spec_crd2idx(b),
        l.spec_crd2idx(Seq::new(a.len(), |i: int| 0int)) == 0,
{
    lemma_layout_vals(l);
    lemma_dot_add(a, b, l.dv());
    lemma_dot_zero(Seq::new(a.len(), |i: int| 0int), l.dv());
}

proof fn lemma_dot_last_is_span(s: Seq<int>, d: Seq<int>)
    requires
        all_pos(s),
        d.len() >= s.len(),
    ensures
        dot(last_coord(s), d) == span(s, d),
    decreases s.len(),
{
    if s.len() > 0 {
        lemma_all_pos_tail(s);
        lemma_dot_last_is_span(s.skip(1), d.skip(1));
        assert(last_coord(s).skip(1) =~= last_coord(s.skip(1)));
    }
}

/// The memory footprint of a layout with a non-empty domain is reached: its last coordinate
/// lies in the shape and lands one below the cosize, and no coordinate in the shape lands
/// further.
pub proof fn law_cosize_is_reached(l: Layout)
    requires
        l.wf(),
        !has_zero(l.sv()),
    ensures
        in_box(last_coord(l.sv()), l.sv()),
        l.spec_crd2idx(last_coord(l.sv())) + 1 == l.spec_cosize(),
        forall|c: Seq<int>| #[trigger] in_box(c, l.sv()) ==> l.spec_crd2idx(c) < l.spec_cosize(),
{
    lemma_layout_vals(l);
    let s = l.sv();
    assert(all_pos(s)) by {
        assert forall|i: int| 0 <= i < s.len() implies 0 < #[trigger] s[i] by {
            if s[i] == 0 {
                assert(has_zero(s));
            }
        }
    }
    lemma_dot_last_is_span(s, l.dv());
    assert forall|c: Seq<int>| #[trigger] in_box(c, l.sv()) implies l.spec_crd2idx(c) < l.spec_cosize() by {
        law_crd2idx_below_cosize(l, c);
    }
}

/// Reversing a layout keeps its number of elements and its memory footprint, and reversing
/// the reversed layout gives the layout back.
pub proof fn law_reverse_keeps_size(l: Layout, r: Layout)
    requires
        l.wf(),
        r.shape@ == l.shape@.reverse(),
        r.stride@ == l.stride@.reverse(),
    ensures
        prod(r.sv()) == prod(l.sv()),
        r.spec_cosize() == l.spec_cosize(),
        r.shape@.reverse() == l.shape@,
        r.stride@.reverse() == l.stride@,
{
    lemma_layout_vals(l);
    let s = l.sv();
    assert(r.sv() =~= s.reverse());
    assert(r.dv() =~= l.dv().reverse());
    lemma_prod_reverse(s);
    assert(r.shape@.reverse() =~= l.shape@);
    assert(r.stride@.reverse() =~= l.stride@);
    if has_zero(s) {
        let i = choose|i: int| 0 <= i < s.len() && s[i] == 0;
        assert(r.sv()[s.len() - 1 - i] == 0);
    } else {
        assert(all_pos(s)) by {
            assert forall|i: int| 0 <= i < s.len() implies 0 < #[trigger] s[i] by {
                if s[i] == 0 {
                    assert(has_zero(s));
                }
            }
        }
        let rs = r.sv();
        assert(all_pos(rs)) by {
            assert forall|i: int| 0 <= i < rs.len() implies 0 < #[trigger] rs[i] by {
                assert(rs[i] == s[s.len() - 1 - i]);
            }
        }
        assert(!has_zero(rs));
        lemma_dot_last_is_span(s, l.dv());
        lemma_dot_last_is_span(rs, r.dv());
        assert(last_coord(rs) =~= last_coord(s).reverse());
        lemma_dot_reverse(last_coord(s), l.dv());
    }
}

/// A column-major layout is the reversed row-major layout of the reversed shape: the same
/// extents, with the row-major strides read backwards.
pub proof fn law_col_major_is_reversed_row_major(c: Layout, m: Layout)
    requires
        c.wf(),
        c.stride@ == col_major_stride(c.shape@),
        col_major_fits(c.shape@),
        m.wf(),
        m.shape@ == c.shape@.reverse(),
        m.stride@ == row_major_stride(m.shape@),
        row_major_fits(m.shape@),
    ensures
        c.sv() == m.sv().reverse(),
        c.dv() == m.dv().reverse(),
{
    lemma_col_major_vals(c);
    lemma_row_major_vals(m);
    assert(m.sv() =~= c.sv().reverse());
    assert(m.sv().reverse() =~= c.sv());
    lemma_rm_reverse_is_cm(m.sv());
}

/// The coordinate `idx2crd` gives memory index `idx`.
pub open spec fn idx2crd_of(l: Layout, idx: int) -> Seq<int> {
    Seq::new(l.sv().len(), |k: int| spec_idx2crd_at(l.sv(), l.dv(), idx, k))
}

proof fn lemma_all_pos_of_no_zero(s: Seq<int>)
    requires
        all_nonneg(s),
        !has_zero(s),
    ensures
        all_pos(s),
{
    assert forall|i: int| 0 <= i < s.len() implies 0 < #[trigger] s[i] by {
        if s[i] == 0 {
            assert(has_zero(s));
        }
    }
}

/// Digit `k` of `r` in the mixed radix `s`, leftmost fastest.
proof fn lemma_digit_at(r: int, s: Seq<int>, k: int)
    requires
        all_pos(s),
        r >= 0,
        0 <= k < s.len(),
    ensures
        flat_digits(r, s).len() == s.len(),
        prod(s.take(k)) > 0,
        flat_digits(r, s)[k] == (r / prod(s.take(k))) % s[k],
    decreases s.len(),
{
    lemma_digits_len(r, s);
    lemma_all_pos_tail(s);
    assert(s.take(0) =~= Seq::<int>::empty());
    if k > 0 {
        let t = s.skip(1);
        lemma_div_pos_is_pos(r, s[0]);
        lemma_digit_at(r / s[0], t, k - 1);
        lemma_digits_len(r / s[0], t);
        assert(s.take(k) =~= seq![s[0]] + t.take(k - 1));
        lemma_prod_concat(seq![s[0]], t.take(k - 1));
        lemma_prod_single(s[0]);
        vstd::arithmetic::div_mod::lemma_div_denominator(r, s[0], prod(t.take(k - 1)));
        vstd::arithmetic::mul::lemma_mul_strictly_positive(s[0], prod(t.take(k - 1)));
    }
}

proof fn lemma_digits_len(r: int, s: Seq<int>)
    ensures
        flat_digits(r, s).len() == s.len(),
    decreases s.len(),
{
    if s.len() > 0 {
        lemma_digits_len(r / s[0], s.skip(1));
    }
}

/// The digits of a non-negative number lie in the shape.
proof fn lemma_digits_in_box(r: int, s: Seq<int>)
    requires
        all_pos(s),
        r >= 0,
    ensures
        in_box(flat_digits(r, s), s),
{
    lemma_digits_len(r, s);
    assert forall|i: int| 0 <= i < s.len() implies 0 <= #[trigger] flat_digits(r, s)[i] < s[i] by {
        lemma_digit_at(r, s, i);
        lemma_div_pos_is_pos(r, prod(s.take(i)));
    }
}

/// Over column-major strides, the memory index of a coordinate in the shape is its flat
/// index.
proof fn lemma_cm_dot_is_flat_index(v: Seq<int>, s: Seq<int>)
    requires
        in_box(v, s),
    ensures
        dot(v, cm_strides(s)) == flat_index(v, s),
        0 <= flat_index(v, s) < prod(s),
        flat_digits(flat_index(v, s), s) == v,
{
    lemma_in_box_pos(v, s);
    law_flat_index_in_range(v, s);
    law_digits_of_flat_index(v, s);
    let t = flat_index(v, s);
    lemma_lin_is_dot_of_digits(s, cm_strides(s), t);
    lemma_lin_cm(s, 1, t);
    assert(cm_strides(s).map_values(|x: int| 1 * x) =~= cm_strides(s));
    vstd::arithmetic::div_mod::lemma_small_mod(t as nat, prod(s) as nat);
}

/// Over row-major strides, the memory index of a coordinate in the shape is the flat index
/// of the reversed coordinate in the reversed shape.
proof fn lemma_rm_dot_is_reversed_flat_index(c: Seq<int>, s: Seq<int>)
    requires
        in_box(c, s),
    ensures
        dot(c, rm_strides(s)) == flat_index(c.reverse(), s.reverse()),
        in_box(c.reverse(), s.reverse()),
{
    let n = s.len();
    assert(in_box(c.reverse(), s.reverse())) by {
        assert forall|i: int| 0 <= i < n implies 0 <= #[trigger] c.reverse()[i] < s.reverse()[i] by {
            assert(0 <= c[n - 1 - i] < s[n - 1 - i]);
        }
    }
    lemma_dot_reverse(c, rm_strides(s));
    lemma_rm_reverse_is_cm(s);
    lemma_cm_dot_is_flat_index(c.reverse(), s.reverse());
}

proof fn lemma_nonempty(l: Layout, i: int)
    requires
        0 <= i < prod(l.sv()),
    ensures
        all_pos(l.sv()),
        !has_zero(l.sv()),
{
    lemma_layout_vals(l);
    if has_zero(l.sv()) {
        lemma_prod_zero(l.sv());
    }
    lemma_all_pos_of_no_zero(l.sv());
}

/// For a column-major layout, `crd2idx` undoes `idx2crd` on every index below the number of
/// elements.
pub proof fn law_col_major_crd2idx_inverts_idx2crd(l: Layout, i: int)
    requires
        l.wf(),
        l.stride@ == col_major_stride(l.shape@),
        col_major_fits(l.shape@),
        0 <= i < prod(l.sv()),
    ensures
        in_box(idx2crd_of(l, i), l.sv()),
        l.spec_crd2idx(idx2crd_of(l, i)) == i,
{
    lemma_col_major_vals(l);
    lemma_nonempty(l, i);
    let s = l.sv();
    lemma_digits_len(i, s);
    assert(idx2crd_of(l, i) =~= flat_digits(i, s)) by {
        assert forall|k: int| 0 <= k < s.len() implies idx2crd_of(l, i)[k] == flat_digits(i, s)[k] by {
            lemma_digit_at(i, s, k);
        }
    }
    lemma_digits_in_box(i, s);
    lemma_cm_dot_is_flat_index(flat_digits(i, s), s);
    law_flat_index_of_digits(i, s);
}

/// For a row-major layout, `crd2idx` undoes `idx2crd` on every index below the number of
/// elements.
pub proof fn law_row_major_crd2idx_inverts_idx2crd(l: Layout, i: int)
    requires
        l.wf(),
        l.stride@ == row_major_stride(l.shape@),
        row_major_fits(l.shape@),
        0 <= i < prod(l.sv()),
    ensures
        in_box(idx2crd_of(l, i), l.sv()),
        l.spec_crd2idx(idx2crd_of(l, i)) == i,
{
    lemma_row_major_vals(l);
    lemma_nonempty(l, i);
    let s = l.sv();
    let n = s.len();
    let rs = s.reverse();
    assert(all_pos(rs)) by {
        assert forall|k: int| 0 <= k < n implies 0 < #[trigger] rs[k] by {
            assert(rs[k] == s[n - 1 - k]);
        }
    }
    lemma_prod_reverse(s);
    lemma_digits_len(i, rs);
    let v = flat_digits(i, rs);
    assert(idx2crd_of(l, i) =~= v.reverse()) by {
        assert forall|k: int| 0 <= k < n implies idx2crd_of(l, i)[k] == v.reverse()[k] by {
            lemma_digit_at(i, rs, n - 1 - k);
            assert(rs.take(n - 1 - k) =~= s.skip(k + 1).reverse());
            lemma_prod_reverse(s.skip(k + 1));
            assert(l.dv()[k] == prod(s.skip(k + 1)));
        }
    }
    lemma_digits_in_box(i, rs);
    assert(in_box(v.reverse(), s)) by {
        assert forall|k: int| 0 <= k < n implies 0 <= #[trigger] v.reverse()[k] < s[k] by {
            assert(0 <= v[n - 1 - k] < rs[n - 1 - k]);
        }
    }
    lemma_rm_dot_is_reversed_flat_index(v.reverse(), s);
    assert(v.reverse().reverse() =~= v);
    law_flat_index_of_digits(i, rs);
}

/// The walk of a layout reaches every coordinate of the shape at exactly one step: the step
/// whose leftmost-fastest digits the coordinate is, where the walk is at the coordinate's
/// memory index.
pub proof fn law_walk_covers_each_coordinate_once(l: Layout, c: Seq<int>)
    requires
        l.wf(),
        in_box(c, l.sv()),
    ensures
        0 <= flat_index(c, l.sv()) < prod(l.sv()),
        flat_digits(flat_index(c, l.sv()), l.sv()) == c,
        spec_linear2idx(l.sv(), l.dv(), flat_index(c, l.sv())) == l.spec_crd2idx(c),
        forall|k: int|
            0 <= k < prod(l.sv()) && #[trigger] flat_digits(k, l.sv()) == c ==> k == flat_index(
                c,
                l.sv(),
            ),
{
    let s = l.sv();
    lemma_layout_vals(l);
    lemma_in_box_pos(c, s);
    law_flat_index_in_range(c, s);
    law_digits_of_flat_index(c, s);
    law_linear2idx_is_crd2idx_of_digits(l, flat_index(c, s));
    assert forall|k: int| 0 <= k < prod(s) && #[trigger] flat_digits(k, s) == c implies k == flat_index(c, s) by {
        law_flat_index_of_digits(k, s);
    }
}

/// The walk of a row-major layout visits each memory index below its number of elements
/// exactly once.
pub proof fn law_row_major_walk_visits_each_index_once(l: Layout, j: int)
    requires
        l.wf(),
        l.stride@ == row_major_stride(l.shape@),
        row_major_fits(l.shape@),
        0 <= j < prod(l.sv()),
    ensures
        exists|k: int| 0 <= k < prod(l.sv()) && #[trigger] spec_linear2idx(l.sv(), l.dv(), k) == j,
        forall|k1: int, k2: int|
            0 <= k1 < prod(l.sv()) && 0 <= k2 < prod(l.sv()) && #[trigger] spec_linear2idx(
                l.sv(),
                l.dv(),
                k1,
            ) == #[trigger] spec_linear2idx(l.sv(), l.dv(), k2) ==> k1 == k2,
{
    lemma_row_major_vals(l);
    lemma_nonempty(l, j);
    let s = l.sv();
    let n = s.len();
    let p = prod(s);
    let rs = s.reverse();
    assert(all_pos(rs)) by {
        assert forall|k: int| 0 <= k < n implies 0 < #[trigger] rs[k] by {
            assert(rs[k] == s[n - 1 - k]);
        }
    }
    lemma_prod_reverse(s);
    assert(rs.reverse() =~= s);
    // The walk at step `k` is the flat index, in the reversed shape, of the reversed digits
    // of `k`.
    assert forall|k: int| 0 <= k < p implies #[trigger] spec_linear2idx(s, l.dv(), k) == flat_index(
        flat_digits(k, s).reverse(),
        rs,
    ) && in_box(flat_digits(k, s), s) by {
        lemma_lin_is_dot_of_digits(s, l.dv(), k);
        lemma_digits_in_box(k, s);
        lemma_rm_dot_is_reversed_flat_index(flat_digits(k, s), s);
    }
    // Some step lands at `j`.
    lemma_digits_in_box(j, rs);
    let v = flat_digits(j, rs);
    let c = v.reverse();
    assert(in_box(c, s)) by {
        assert forall|i: int| 0 <= i < n implies 0 <= #[trigger] c[i] < s[i] by {
            assert(0 <= v[n - 1 - i] < rs[n - 1 - i]);
        }
    }
    lemma_cm_dot_is_flat_index(c, s);
    let k = flat_index(c, s);
    assert(flat_digits(k, s) == c);
    assert(c.reverse() =~= v);
    law_flat_index_of_digits(j, rs);
    assert(spec_linear2idx(s, l.dv(), k) == j);
    // No two steps land at the same index.
    assert forall|k1: int, k2: int|
        0 <= k1 < p && 0 <= k2 < p && #[trigger] spec_linear2idx(s, l.dv(), k1)
            == #[trigger] spec_linear2idx(s, l.dv(), k2) implies k1 == k2 by {
        let c1 = flat_digits(k1, s);
        let c2 = flat_digits(k2, s);
        lemma_rm_dot_is_reversed_flat_index(c1, s);
        lemma_rm_dot_is_reversed_flat_index(c2, s);
        law_digits_of_flat_index(c1.reverse(), rs);
        law_digits_of_flat_index(c2.reverse(), rs);
        assert(c1.reverse().reverse() =~= c1);
        assert(c2.reverse().reverse() =~= c2);
        law_flat_index_of_digits(k1, s);
        law_flat_index_of_digits(k2, s);
    }
}

} // verus!
