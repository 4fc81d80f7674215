//! Products, dot products and spans of integer sequences, with the lemmas the layout code
//! uses about them.
use vstd::prelude::*;
use vstd::arithmetic::mul::{
    lemma_mul_nonnegative, lemma_mul_is_associative, lemma_mul_inequality,
    lemma_mul_is_commutative, lemma_mul_by_zero_is_zero,
};

verus! {

/// Product of all entries.
pub open spec fn prod(s: Seq<int>) -> int
    decreases s.len(),
{
    if s.len() == 0 {
        1
    } else {
        prod(s.drop_last()) * s.last()
    }
}

/// `sum c[i] * d[i]` over the entries of `c`.
pub open spec fn dot(c: Seq<int>, d: Seq<int>) -> int
    decreases c.len(),
{
    if c.len() == 0 {
        0
    } else {
        c[0] * d[0] + dot(c.skip(1), d.skip(1))
    }
}

/// Whether some entry is zero.
pub open spec fn has_zero(s: Seq<int>) -> bool {
    exists|i: int| 0 <= i < s.len() && s[i] == 0
}

/// Whether every entry is non-negative.
pub open spec fn all_nonneg(s: Seq<int>) -> bool {
    forall|i: int| 0 <= i < s.len() ==> 0 <= #[trigger] s[i]
}

/// `sum (s[i] - 1) * d[i]` over the leading entries of `s` up to its first zero: for a shape
/// with no zero extent, the offset of the last element of a shape/stride pair.
pub open spec fn span(s: Seq<int>, d: Seq<int>) -> int
    decreases s.len(),
{
    if s.len() == 0 || s[0] == 0 {
        0
    } else {
        (s[0] - 1) * d[0] + span(s.skip(1), d.skip(1))
    }
}

/// The memory index of the `r`-th element of a shape/stride pair when the domain is walked
/// with the leftmost coordinate varying fastest, over the leading entries up to the first zero.
pub open spec fn lin(s: Seq<int>, d: Seq<int>, r: int) -> int
    decreases s.len(),
{
    if s.len() == 0 || s[0] == 0 {
        0
    } else {
        (r % s[0]) * d[0] + lin(s.skip(1), d.skip(1), r / s[0])
    }
}

/// Whether the first `k` entries are non-zero.
pub open spec fn zero_free(s: Seq<int>, k: int) -> bool {
    forall|j: int| 0 <= j < k ==> #[trigger] s[j] != 0
}

/// Whether `c` is a coordinate inside the shape `s`.
pub open spec fn in_box(c: Seq<int>, s: Seq<int>) -> bool {
    &&& c.len() == s.len()
    &&& forall|i: int| 0 <= i < s.len() ==> 0 <= #[trigger] c[i] < s[i]
}

pub proof fn lemma_prod_nonneg(s: Seq<int>)
    requires
        all_nonneg(s),
    ensures
        prod(s) >= 0,
    decreases s.len(),
{
    if s.len() > 0 {
        lemma_prod_nonneg(s.drop_last());
        lemma_mul_nonnegative(prod(s.drop_last()), s.last());
    }
}

pub proof fn lemma_prod_pos(s: Seq<int>)
    requires
        forall|i: int| 0 <= i < s.len() ==> 0 < #[trigger] s[i],
    ensures
        prod(s) >= 1,
    decreases s.len(),
{
    if s.len() > 0 {
        lemma_prod_pos(s.drop_last());
        lemma_mul_inequality(1, prod(s.drop_last()), s.last());
        assert(1 * s.last() >= 1);
    }
}

pub proof fn lemma_prod_zero(s: Seq<int>)
    requires
        has_zero(s),
    ensures
        prod(s) == 0,
    decreases s.len(),
{
    let i = choose|i: int| 0 <= i < s.len() && s[i] == 0;
    if i == s.len() - 1 {
        lemma_mul_by_zero_is_zero(prod(s.drop_last()));
    } else {
        assert(s.drop_last()[i] == 0);
        lemma_prod_zero(s.drop_last());
        lemma_mul_by_zero_is_zero(s.last());
    }
}

/// The product of a single entry is that entry.
pub proof fn lemma_prod_single(x: int)
    ensures
        prod(seq![x]) == x,
{
    let one = seq![x];
    assert(one.drop_last() =~= Seq::<int>::empty());
    assert(prod(one.drop_last()) == 1);
    assert(one.last() == x);
    assert(prod(one) == 1 * x);
}

/// The product of a concatenation is the product of the products.
pub proof fn lemma_prod_concat(a: Seq<int>, b: Seq<int>)
    ensures
        prod(a + b) == prod(a) * prod(b),
    decreases b.len(),
{
    if b.len() == 0 {
        assert(a + b =~= a);
    } else {
        assert((a + b).drop_last() =~= a + b.drop_last());
        lemma_prod_concat(a, b.drop_last());
        lemma_mul_is_associative(prod(a), prod(b.drop_last()), b.last());
    }
}

/// `prod(s)` is `s[0] * prod(s[1..])`.
pub proof fn lemma_prod_front(s: Seq<int>)
    requires
        s.len() > 0,
    ensures
        prod(s) == s[0] * prod(s.skip(1)),
{
    assert(s =~= seq![s[0]] + s.skip(1));
    lemma_prod_concat(seq![s[0]], s.skip(1));
    let one = seq![s[0]];
    assert(one.drop_last() =~= Seq::<int>::empty());
    assert(prod(one.drop_last()) == 1);
    assert(one.last() == s[0]);
    assert(prod(one) == 1 * s[0]);
    assert(1 * s[0] == s[0]);
}

/// Products of prefixes only grow.
pub proof fn lemma_prod_prefix_le(s: Seq<int>, k: int)
    requires
        forall|i: int| 0 <= i < s.len() ==> 0 < #[trigger] s[i],
        0 <= k <= s.len(),
    ensures
        prod(s.take(k)) <= prod(s),
        1 <= prod(s.take(k)),
    decreases s.len() - k,
{
    if k == s.len() {
        assert(s.take(k) =~= s);
        lemma_prod_pos(s);
    } else {
        lemma_prod_prefix_le(s, k + 1);
        assert(s.take(k + 1).drop_last() =~= s.take(k));
        lemma_prod_pos(s.take(k));
        lemma_mul_inequality(1, s[k], prod(s.take(k)));
        lemma_mul_is_commutative(s[k], prod(s.take(k)));
    }
}

pub proof fn lemma_dot_nonneg(c: Seq<int>, d: Seq<int>)
    requires
        all_nonneg(c),
        all_nonneg(d),
        d.len() >= c.len(),
    ensures
        dot(c, d) >= 0,
    decreases c.len(),
{
    if c.len() > 0 {
        lemma_dot_nonneg(c.skip(1), d.skip(1));
        lemma_mul_nonnegative(c[0], d[0]);
    }
}

pub proof fn lemma_span_nonneg(s: Seq<int>, d: Seq<int>)
    requires
        all_nonneg(s),
        all_nonneg(d),
        d.len() >= s.len(),
    ensures
        span(s, d) >= 0,
    decreases s.len(),
{
    if s.len() > 0 && s[0] != 0 {
        lemma_span_nonneg(s.skip(1), d.skip(1));
        lemma_mul_nonnegative(s[0] - 1, d[0]);
    }
}

pub proof fn lemma_lin_nonneg(s: Seq<int>, d: Seq<int>, r: int)
    requires
        all_nonneg(s),
        all_nonneg(d),
        d.len() >= s.len(),
        r >= 0,
    ensures
        lin(s, d, r) >= 0,
    decreases s.len(),
{
    if s.len() > 0 && s[0] != 0 {
        lemma_lin_nonneg(s.skip(1), d.skip(1), r / s[0]);
        lemma_mul_nonnegative(r % s[0], d[0]);
    }
}

/// A coordinate inside the shape lands at most `span` elements past the origin.
pub proof fn lemma_dot_le_span(c: Seq<int>, s: Seq<int>, d: Seq<int>)
    requires
        in_box(c, s),
        all_nonneg(d),
        d.len() >= s.len(),
    ensures
        0 <= dot(c, d) <= span(s, d),
    decreases s.len(),
{
    if s.len() > 0 {
        assert(s[0] > c[0]);
        lemma_dot_le_span(c.skip(1), s.skip(1), d.skip(1));
        lemma_mul_inequality(c[0], s[0] - 1, d[0]);
        lemma_mul_nonnegative(c[0], d[0]);
    }
}

/// Peels entry `i` off a dot product over a suffix.
pub proof fn lemma_dot_unfold(c: Seq<int>, d: Seq<int>, i: int)
    requires
        0 <= i < c.len(),
        d.len() >= c.len(),
    ensures
        dot(c.skip(i), d.skip(i)) == c[i] * d[i] + dot(c.skip(i + 1), d.skip(i + 1)),
{
    assert(c.skip(i).skip(1) =~= c.skip(i + 1));
    assert(d.skip(i).skip(1) =~= d.skip(i + 1));
}

/// Peels entry `i` off a span over a suffix.
pub proof fn lemma_span_unfold(s: Seq<int>, d: Seq<int>, i: int)
    requires
        0 <= i < s.len(),
        d.len() >= s.len(),
    ensures
        s[i] != 0 ==> span(s.skip(i), d.skip(i)) == (s[i] - 1) * d[i] + span(
            s.skip(i + 1),
            d.skip(i + 1),
        ),
        s[i] == 0 ==> span(s.skip(i), d.skip(i)) == 0,
{
    assert(s.skip(i).skip(1) =~= s.skip(i + 1));
    assert(d.skip(i).skip(1) =~= d.skip(i + 1));
}

/// Peels entry `i` off a walk over a suffix.
pub proof fn lemma_lin_unfold(s: Seq<int>, d: Seq<int>, i: int, r: int)
    requires
        0 <= i < s.len(),
        d.len() >= s.len(),
    ensures
        s[i] != 0 ==> lin(s.skip(i), d.skip(i), r) == (r % s[i]) * d[i] + lin(
            s.skip(i + 1),
            d.skip(i + 1),
            r / s[i],
        ),
        s[i] == 0 ==> lin(s.skip(i), d.skip(i), r) == 0,
{
    assert(s.skip(i).skip(1) =~= s.skip(i + 1));
    assert(d.skip(i).skip(1) =~= d.skip(i + 1));
}

} // verus!
