//! Shader permutations: preprocessor defines with a finite set of values each, and the flat
//! index a full set of them is compiled and looked up under.
use vstd::prelude::*;
use core::marker::PhantomData;
use crate::seqmath::{prod, lemma_prod_front, lemma_prod_pos};
use crate::text::{push_decimal, push_signed_decimal, decimal, signed_decimal};
use vstd::arithmetic::div_mod::{
    lemma_fundamental_div_mod, lemma_fundamental_div_mod_converse, lemma_div_pos_is_pos,
};
use vstd::arithmetic::mul::{
    lemma_mul_nonnegative, lemma_mul_is_associative, lemma_mul_is_distributive_add,
    lemma_mul_inequality, lemma_mul_is_commutative,
};

verus! {

/// A preprocessor define's name.
pub trait ShaderDefine {
    /// The name the define is passed to the shader compiler under.
    const NAME: &'static str;
}

/// A define whose value is an integer in an inclusive range.
pub trait ShaderIntRange: ShaderDefine {
    /// The smallest value.
    spec fn spec_min() -> i32;

    /// The largest value.
    spec fn spec_max() -> i32;

    /// The smallest value.
    fn range_min() -> (r: i32)
        ensures
            r == Self::spec_min(),
    ;

    /// The largest value.
    fn range_max() -> (r: i32)
        ensures
            r == Self::spec_max(),
    ;
}

/// A shader permutation dimension, i.e. one preprocessor `#define`, whose values are numbered
/// `0..len()`.
pub trait ShaderPermutationDimension: Sized {
    /// The number of values.
    spec fn spec_len() -> nat;

    /// Whether computing the number of values stays within range.
    spec fn spec_len_ok() -> bool;

    /// The number of this value.
    spec fn spec_value(&self) -> nat;

    /// The value numbered `index`.
    spec fn spec_from_index(index: nat) -> Self;

    /// What the define is set to for this value.
    spec fn spec_define_value(&self) -> Seq<char>;

    /// Whether this is one of the dimension's values.
    spec fn spec_valid(&self) -> bool;

    /// The define's name.
    spec fn spec_name() -> Seq<char>;

    /// The define's name.
    fn name() -> (r: &'static str)
        ensures
            r@ == Self::spec_name(),
    ;

    /// The number of values.
    fn len() -> (r: usize)
        requires
            Self::spec_len_ok(),
        ensures
            r == Self::spec_len(),
    ;

    /// The number of this value.
    fn value(&self) -> (r: usize)
        requires
            self.spec_valid(),
            Self::spec_len_ok(),
        ensures
            r == self.spec_value(),
    ;

    /// What the define is set to for this value.
    fn define_value(&self) -> (r: String)
        requires
            self.spec_valid(),
        ensures
            r@ == self.spec_define_value(),
    ;

    /// The value numbered `index`.
    fn from_index(index: usize) -> (r: Self)
        requires
            Self::spec_len_ok(),
            index < Self::spec_len(),
        ensures
            r == Self::spec_from_index(index as nat),
            r.spec_valid(),
    ;

    /// Numbering a value and looking the number up gives the value back.
    proof fn lemma_value_round_trip(&self)
        requires
            self.spec_valid(),
            Self::spec_len_ok(),
        ensures
            self.spec_value() < Self::spec_len(),
            Self::spec_from_index(self.spec_value()) == *self,
    ;

    /// Looking a number up and numbering the value gives the number back.
    proof fn lemma_index_round_trip(index: nat)
        requires
            Self::spec_len_ok(),
            index < Self::spec_len(),
        ensures
            Self::spec_from_index(index).spec_valid(),
            Self::spec_from_index(index).spec_value() == index,
    ;
}

/// An on/off permutation dimension, defined to `0` or `1`.
pub struct ShaderPermutationBool<D: ShaderDefine> {
    value: bool,
    _define: PhantomData<D>,
}

impl<D: ShaderDefine> ShaderPermutationBool<D> {
    /// Whether the define is on.
    pub closed spec fn spec_on(&self) -> bool {
        self.value
    }

    /// The dimension set to `value`.
    pub fn new(value: bool) -> (r: Self)
        ensures
            r.spec_on() == value,
    {
        ShaderPermutationBool { value, _define: PhantomData }
    }

    /// Sets the dimension to `value`.
    pub fn set(&mut self, value: bool) -> (r: &mut Self)
        ensures
            r.spec_on() == value,
            *final(self) == *final(r),
    {
        self.value = value;
        self
    }
}

impl<D: ShaderDefine> ShaderPermutationDimension for ShaderPermutationBool<D> {
    open spec fn spec_len() -> nat {
        2
    }

    open spec fn spec_len_ok() -> bool {
        true
    }

    open spec fn spec_value(&self) -> nat {
        if self.spec_on() {
            1
        } else {
            0
        }
    }

    closed spec fn spec_from_index(index: nat) -> Self {
        ShaderPermutationBool { value: index != 0, _define: PhantomData }
    }

    open spec fn spec_define_value(&self) -> Seq<char> {
        decimal(self.spec_value())
    }

    open spec fn spec_valid(&self) -> bool {
        true
    }

    open spec fn spec_name() -> Seq<char> {
        D::NAME@
    }

    fn name() -> (r: &'static str) {
        D::NAME
    }

    fn len() -> (r: usize) {
        2
    }

    fn value(&self) -> (r: usize) {
        if self.value {
            1
        } else {
            0
        }
    }

    fn define_value(&self) -> (r: String) {
        let mut s = String::new();
        push_decimal(&mut s, self.value() as u64);
        assert(s@ =~= self.spec_define_value());
        s
    }

    fn from_index(index: usize) -> (r: Self) {
        Self::new(index != 0)
    }

    proof fn lemma_value_round_trip(&self) {
    }

    proof fn lemma_index_round_trip(index: nat) {
    }
}

/// An integer permutation dimension over the inclusive range of its define.
pub struct ShaderPermutationInt<D: ShaderIntRange> {
    value: i32,
    _define: PhantomData<D>,
}

impl<D: ShaderIntRange> ShaderPermutationInt<D> {
    /// The define's value.
    pub closed spec fn spec_int(&self) -> i32 {
        self.value
    }

    /// The dimension set to `value`, which must lie in the define's range.
    pub fn new(value: i32) -> (r: Self)
        requires
            D::spec_min() <= D::spec_max(),
            D::spec_min() <= value <= D::spec_max(),
        ensures
            r.spec_int() == value,
    {
        ShaderPermutationInt { value, _define: PhantomData }
    }

    /// Sets the dimension to `value`, which must lie in the define's range.
    pub fn set(&mut self, value: i32) -> (r: &mut Self)
        requires
            D::spec_min() <= value <= D::spec_max(),
        ensures
            r.spec_int() == value,
            *final(self) == *final(r),
    {
        self.value = value;
        self
    }
}

impl<D: ShaderIntRange> ShaderPermutationDimension for ShaderPermutationInt<D> {
    open spec fn spec_len() -> nat {
        (D::spec_max() - D::spec_min() + 1) as nat
    }

    open spec fn spec_len_ok() -> bool {
        &&& D::spec_min() <= D::spec_max()
        &&& D::spec_max() - D::spec_min() + 1 <= i32::MAX
    }

    open spec fn spec_value(&self) -> nat {
        (self.spec_int() - D::spec_min()) as nat
    }

    closed spec fn spec_from_index(index: nat) -> Self {
        ShaderPermutationInt { value: (D::spec_min() + index) as i32, _define: PhantomData }
    }

    open spec fn spec_define_value(&self) -> Seq<char> {
        signed_decimal(self.spec_int() as int)
    }

    open spec fn spec_valid(&self) -> bool {
        D::spec_min() <= self.spec_int() <= D::spec_max()
    }

    open spec fn spec_name() -> Seq<char> {
        D::NAME@
    }

    fn name() -> (r: &'static str) {
        D::NAME
    }

    fn len() -> (r: usize) {
        (D::range_max() - D::range_min() + 1) as usize
    }

    fn value(&self) -> (r: usize) {
        (self.value - D::range_min()) as usize
    }

    fn define_value(&self) -> (r: String) {
        let mut s = String::new();
        push_signed_decimal(&mut s, self.value as i64);
        assert(s@ =~= self.spec_define_value());
        s
    }

    fn from_index(index: usize) -> (r: Self) {
        let min = D::range_min();
        let max = D::range_max();
        Self::new(min + index as i32)
    }

    proof fn lemma_value_round_trip(&self) {
    }

    proof fn lemma_index_round_trip(index: nat) {
    }
}

/// An enum whose variants are the values of a permutation dimension, numbered in declaration
/// order; each variant's identifier is its define value.
pub trait ShaderPermutationEnum: Copy + Sized {
    /// The number of variants.
    spec fn spec_count() -> nat;

    /// The number of this variant.
    spec fn spec_index(&self) -> nat;

    /// The variant numbered `index`.
    spec fn spec_variant(index: nat) -> Self;

    /// The number of variants.
    fn variant_count() -> (r: usize)
        ensures
            r == Self::spec_count(),
    ;

    /// The number of this variant.
    fn variant_index(&self) -> (r: usize)
        ensures
            r == self.spec_index(),
    ;

    /// The variant numbered `index`.
    fn variant(index: usize) -> (r: Self)
        requires
            index < Self::spec_count(),
        ensures
            r == Self::spec_variant(index as nat),
    ;

    /// What the define is set to for this variant.
    spec fn spec_define(&self) -> Seq<char>;

    /// What the define is set to for this variant: its identifier.
    fn define_value(&self) -> (r: &'static str)
        ensures
            r@ == self.spec_define(),
    ;

    /// Every variant has a number below the count, and the numbering is one to one.
    proof fn lemma_numbering(&self, index: nat)
        ensures
            self.spec_index() < Self::spec_count(),
            Self::spec_variant(self.spec_index()) == *self,
            index < Self::spec_count() ==> Self::spec_variant(index).spec_index() == index,
    ;
}

/// A permutation dimension over the variants of an enum.
pub struct ShaderPermutationEnumValue<D: ShaderDefine, E: ShaderPermutationEnum> {
    value: E,
    _define: PhantomData<D>,
}

impl<D: ShaderDefine, E: ShaderPermutationEnum> ShaderPermutationEnumValue<D, E> {
    /// The variant the dimension is set to.
    pub closed spec fn spec_variant_value(&self) -> E {
        self.value
    }

    /// The dimension set to `value`.
    pub fn new(value: E) -> (r: Self)
        ensures
            r.spec_variant_value() == value,
    {
        ShaderPermutationEnumValue { value, _define: PhantomData }
    }

    /// Sets the dimension to `value`.
    pub fn set(&mut self, value: E) -> (r: &mut Self)
        ensures
            r.spec_variant_value() == value,
            *final(self) == *final(r),
    {
        self.value = value;
        self
    }
}

impl<D: ShaderDefine, E: ShaderPermutationEnum> ShaderPermutationDimension for ShaderPermutationEnumValue<
    D,
    E,
> {
    open spec fn spec_len() -> nat {
        E::spec_count()
    }

    open spec fn spec_len_ok() -> bool {
        true
    }

    open spec fn spec_value(&self) -> nat {
        self.spec_variant_value().spec_index()
    }

    closed spec fn spec_from_index(index: nat) -> Self {
        ShaderPermutationEnumValue { value: E::spec_variant(index), _define: PhantomData }
    }

    open spec fn spec_define_value(&self) -> Seq<char> {
        self.spec_variant_value().spec_define()
    }

    open spec fn spec_valid(&self) -> bool {
        true
    }

    open spec fn spec_name() -> Seq<char> {
        D::NAME@
    }

    fn name() -> (r: &'static str) {
        D::NAME
    }

    fn len() -> (r: usize) {
        E::variant_count()
    }

    fn value(&self) -> (r: usize) {
        self.value.variant_index()
    }

    fn define_value(&self) -> (r: String) {
        String::from_str(self.value.define_value())
    }

    fn from_index(index: usize) -> (r: Self) {
        Self::new(E::variant(index))
    }

    proof fn lemma_value_round_trip(&self) {
        self.value.lemma_numbering(0);
    }

    proof fn lemma_index_round_trip(index: nat) {
        E::spec_variant(index).lemma_numbering(index);
    }
}

/// The flat index of a set of dimension values: mixed radix, with the first dimension varying
/// fastest, `v[0] + len[0] * (v[1] + len[1] * (...))`.
pub open spec fn flat_index(v: Seq<int>, lens: Seq<int>) -> int
    decreases v.len(),
{
    if v.len() == 0 {
        0
    } else {
        v[0] + lens[0] * flat_index(v.skip(1), lens.skip(1))
    }
}

/// The dimension values a flat index stands for: each is the index modulo its dimension's
/// number of values, and the index moves on to the quotient.
pub open spec fn flat_digits(index: int, lens: Seq<int>) -> Seq<int>
    decreases lens.len(),
{
    if lens.len() == 0 {
        Seq::empty()
    } else {
        seq![index % lens[0]] + flat_digits(index / lens[0], lens.skip(1))
    }
}

/// `sum v[i] * m * len[0] * ... * len[i - 1]`: the flat index accumulated with the running
/// stride starting at `m`.
pub open spec fn weighted(v: Seq<int>, lens: Seq<int>, m: int) -> int
    decreases v.len(),
{
    if v.len() == 0 {
        0
    } else {
        v[0] * m + weighted(v.skip(1), lens.skip(1), m * lens[0])
    }
}

/// Whether every value is one of its dimension's.
pub open spec fn digits_in_range(v: Seq<int>, lens: Seq<int>) -> bool {
    &&& v.len() == lens.len()
    &&& forall|i: int| 0 <= i < v.len() ==> 0 <= #[trigger] v[i] < lens[i]
}

/// Whether every dimension has at least one value.
pub open spec fn all_positive(lens: Seq<int>) -> bool {
    forall|i: int| 0 <= i < lens.len() ==> 0 < #[trigger] lens[i]
}

proof fn lemma_weighted(v: Seq<int>, lens: Seq<int>, m: int)
    requires
        lens.len() >= v.len(),
    ensures
        weighted(v, lens, m) == m * flat_index(v, lens),
    decreases v.len(),
{
    if v.len() > 0 {
        lemma_weighted(v.skip(1), lens.skip(1), m * lens[0]);
        let h = flat_index(v.skip(1), lens.skip(1));
        lemma_mul_is_associative(m, lens[0], h);
        lemma_mul_is_distributive_add(m, v[0], lens[0] * h);
        lemma_mul_is_commutative(v[0], m);
    }
}

/// A set of in-range values has a flat index below the number of permutations.
pub proof fn law_flat_index_in_range(v: Seq<int>, lens: Seq<int>)
    requires
        digits_in_range(v, lens),
    ensures
        0 <= flat_index(v, lens) < prod(lens),
    decreases v.len(),
{
    if v.len() == 0 {
    } else {
        assert(0 <= v[0] < lens[0]);
        assert(digits_in_range(v.skip(1), lens.skip(1))) by {
            assert forall|i: int| 0 <= i < v.skip(1).len() implies 0 <= #[trigger] v.skip(1)[i]
                < lens.skip(1)[i] by {
                assert(0 <= v[i + 1] < lens[i + 1]);
            }
        }
        law_flat_index_in_range(v.skip(1), lens.skip(1));
        lemma_prod_front(lens);
        let h = flat_index(v.skip(1), lens.skip(1));
        let p = prod(lens.skip(1));
        lemma_mul_nonnegative(lens[0], h);
        // v[0] + lens[0] * h <= (lens[0] - 1) + lens[0] * (p - 1) = lens[0] * p - 1
        lemma_mul_inequality(h, p - 1, lens[0]);
        lemma_mul_is_commutative(h, lens[0]);
        lemma_mul_is_commutative(p - 1, lens[0]);
        lemma_mul_is_distributive_add(lens[0], p - 1, 1);
    }
}

/// Splitting the flat index of in-range values gives the values back.
pub proof fn law_digits_of_flat_index(v: Seq<int>, lens: Seq<int>)
    requires
        digits_in_range(v, lens),
    ensures
        flat_digits(flat_index(v, lens), lens) == v,
    decreases v.len(),
{
    if v.len() == 0 {
        assert(flat_digits(0, lens) =~= v);
    } else {
        assert(digits_in_range(v.skip(1), lens.skip(1)));
        law_digits_of_flat_index(v.skip(1), lens.skip(1));
        law_flat_index_in_range(v.skip(1), lens.skip(1));
        let h = flat_index(v.skip(1), lens.skip(1));
        lemma_mul_is_commutative(lens[0], h);
        lemma_fundamental_div_mod_converse(flat_index(v, lens), lens[0], h, v[0]);
        assert(flat_digits(flat_index(v, lens), lens) =~= seq![v[0]] + v.skip(1));
        assert(seq![v[0]] + v.skip(1) =~= v);
    }
}

/// Joining the values a flat index below the number of permutations stands for gives the
/// index back.
pub proof fn law_flat_index_of_digits(index: int, lens: Seq<int>)
    requires
        all_positive(lens),
        0 <= index < prod(lens),
    ensures
        flat_index(flat_digits(index, lens), lens) == index,
        digits_in_range(flat_digits(index, lens), lens),
    decreases lens.len(),
{
    if lens.len() == 0 {
    } else {
        let l = lens[0];
        let q = index / l;
        let tail = lens.skip(1);
        lemma_prod_front(lens);
        lemma_prod_pos(tail);
        lemma_fundamental_div_mod(index, l);
        assert(all_positive(tail));
        // q < prod(tail) because l * q <= index < l * prod(tail).
        if q >= prod(tail) {
            lemma_mul_inequality(prod(tail), q, l);
            lemma_mul_is_commutative(prod(tail), l);
            lemma_mul_is_commutative(q, l);
            assert(false);
        }
        lemma_div_pos_is_pos(index, l);
        law_flat_index_of_digits(q, tail);
        let d = flat_digits(index, lens);
        assert(d.skip(1) =~= flat_digits(q, tail));
        assert(d[0] == index % l);
        lemma_mul_is_commutative(l, q);
    }
}

/// The flat index of a set of dimension values, with the first dimension varying fastest.
///
/// `lens[i]` is the number of values of dimension `i`, and `values[i]` the number of its value.
pub fn flatten_values(values: &[usize], lens: &[usize]) -> (r: usize)
    requires
        values@.len() == lens@.len(),
        flat_index(int_seq(values@), int_seq(lens@)) <= usize::MAX,
        forall|k: int| 0 <= k <= lens@.len() ==> #[trigger] prod(int_seq(lens@).take(k)) <= usize::MAX,
    ensures
        r == flat_index(int_seq(values@), int_seq(lens@)),
{
    let ghost v = int_seq(values@);
    let ghost l = int_seq(lens@);
    let mut index: usize = 0;
    let mut stride: usize = 1;
    let mut i: usize = 0;
    proof {
        lemma_weighted(v, l, 1);
        assert(v.skip(0) =~= v);
        assert(l.skip(0) =~= l);
        assert(l.take(0) =~= Seq::<int>::empty());
    }
    while i < values.len()
        invariant
            v == int_seq(values@),
            l == int_seq(lens@),
            v.len() == l.len(),
            0 <= i <= v.len(),
            stride == prod(l.take(i as int)),
            index + weighted(v.skip(i as int), l.skip(i as int), stride as int) == flat_index(v, l),
            flat_index(v, l) <= usize::MAX,
            forall|k: int| 0 <= k <= l.len() ==> #[trigger] prod(l.take(k)) <= usize::MAX,
        decreases v.len() - i,
    {
        proof {
            assert(v.skip(i as int).skip(1) =~= v.skip(i + 1));
            assert(l.skip(i as int).skip(1) =~= l.skip(i + 1));
            assert(l.take(i + 1).drop_last() =~= l.take(i as int));
            assert(prod(l.take(i + 1)) <= usize::MAX);
            lemma_weighted_nonneg(v.skip(i + 1), l.skip(i + 1), (stride * lens[i as int]) as int);
            lemma_mul_nonnegative(values[i as int] as int, stride as int);
        }
        index = index + values[i] * stride;
        stride = stride * lens[i];
        i += 1;
    }
    proof {
        assert(v.skip(v.len() as int) =~= Seq::<int>::empty());
    }
    index
}

proof fn lemma_weighted_nonneg(v: Seq<int>, lens: Seq<int>, m: int)
    requires
        forall|i: int| 0 <= i < v.len() ==> 0 <= #[trigger] v[i],
        forall|i: int| 0 <= i < lens.len() ==> 0 <= #[trigger] lens[i],
        lens.len() >= v.len(),
        m >= 0,
    ensures
        weighted(v, lens, m) >= 0,
    decreases v.len(),
{
    if v.len() > 0 {
        lemma_mul_nonnegative(m, lens[0]);
        lemma_weighted_nonneg(v.skip(1), lens.skip(1), m * lens[0]);
        lemma_mul_nonnegative(v[0], m);
    }
}

/// A sequence of `usize` values as integers.
pub open spec fn int_seq(v: Seq<usize>) -> Seq<int> {
    v.map_values(|x: usize| x as int)
}

/// The number of permutations: the product of every dimension's number of values.
pub fn permutation_count(lens: &[usize]) -> (r: usize)
    requires
        forall|k: int| 0 <= k <= lens@.len() ==> #[trigger] prod(int_seq(lens@).take(k)) <= usize::MAX,
    ensures
        r == prod(int_seq(lens@)),
{
    let ghost l = int_seq(lens@);
    let mut total: usize = 1;
    let mut i: usize = 0;
    proof {
        assert(l.take(0) =~= Seq::<int>::empty());
    }
    while i < lens.len()
        invariant
            l == int_seq(lens@),
            0 <= i <= l.len(),
            total == prod(l.take(i as int)),
            forall|k: int| 0 <= k <= l.len() ==> #[trigger] prod(l.take(k)) <= usize::MAX,
        decreases l.len() - i,
    {
        proof {
            assert(l.take(i + 1).drop_last() =~= l.take(i as int));
            assert(prod(l.take(i + 1)) <= usize::MAX);
        }
        total = total * lens[i];
        i += 1;
    }
    proof {
        assert(l.take(l.len() as int) =~= l);
    }
    total
}

/// The dimension values a flat index stands for, with the first dimension varying fastest.
pub fn values_of_flat_index(index: usize, lens: &[usize]) -> (r: Vec<usize>)
    requires
        all_positive(int_seq(lens@)),
    ensures
        int_seq(r@) == flat_digits(index as int, int_seq(lens@)),
{
    let ghost l = int_seq(lens@);
    let mut r: Vec<usize> = Vec::new();
    let mut rest = index;
    let mut i: usize = 0;
    proof {
        assert(l.skip(0) =~= l);
    }
    while i < lens.len()
        invariant
            l == int_seq(lens@),
            all_positive(l),
            0 <= i <= l.len(),
            int_seq(r@) + flat_digits(rest as int, l.skip(i as int)) == flat_digits(
                index as int,
                l,
            ),
        decreases l.len() - i,
    {
        let len = lens[i];
        assert(l[i as int] > 0);
        let digit = rest % len;
        proof {
            assert(l.skip(i as int).skip(1) =~= l.skip(i + 1));
            assert(int_seq(r@.push(digit)) =~= int_seq(r@).push(digit as int));
            assert(flat_digits(rest as int, l.skip(i as int)) =~= seq![digit as int]
                + flat_digits((rest / len) as int, l.skip(i + 1)));
        }
        r.push(digit);
        rest = rest / len;
        i += 1;
    }
    proof {
        assert(flat_digits(rest as int, l.skip(l.len() as int)) =~= Seq::<int>::empty());
        assert(int_seq(r@) =~= int_seq(r@) + Seq::<int>::empty());
    }
    r
}

/// A shader module's full set of permutation dimensions, flattened into a single linear
/// index used to select a shader variant at runtime.
pub trait ShaderPermutationMatrix: Sized {
    /// The number of permutations.
    spec fn spec_total() -> nat;

    /// This permutation's flat index.
    spec fn spec_flat(&self) -> nat;

    /// The `(name, value)` of every define this permutation sets, in order.
    spec fn spec_defines(&self) -> Seq<(Seq<char>, Seq<char>)>;

    /// Distinct permutations have distinct flat indices.
    proof fn lemma_flat_is_injective(a: Self, b: Self)
        requires
            a.spec_flat() == b.spec_flat(),
        ensures
            a == b,
    ;

    /// This permutation's flat index, below the number of permutations.
    fn flatten(&self) -> (r: usize)
        ensures
            r == self.spec_flat(),
            r < Self::spec_total(),
    ;

    /// The number of permutations.
    fn total_permutations() -> (r: usize)
        ensures
            r == Self::spec_total(),
    ;

    /// The `(name, value)` of every define this permutation sets.
    fn defines(&self) -> (r: Vec<(&'static str, String)>)
        ensures
            r@.len() == self.spec_defines().len(),
            forall|i: int|
                0 <= i < r@.len() ==> (#[trigger] r@[i]).0@ == self.spec_defines()[i].0 && r@[i].1@
                    == self.spec_defines()[i].1,
    ;

    /// The permutation with the given flat index.
    fn from_flat_index(index: usize) -> (r: Self)
        requires
            index < Self::spec_total(),
        ensures
            r.spec_flat() == index,
    ;
}

/// Rebuilding a permutation from its flat index gives the permutation back.
pub proof fn law_from_flat_index_inverts_flatten<M: ShaderPermutationMatrix>(m: M, rebuilt: M)
    requires
        rebuilt.spec_flat() == m.spec_flat(),
    ensures
        rebuilt == m,
{
    M::lemma_flat_is_injective(rebuilt, m);
}

/// Unit shader permutation with no preprocessor defines.
impl ShaderPermutationMatrix for () {
    open spec fn spec_total() -> nat {
        1
    }

    open spec fn spec_flat(&self) -> nat {
        0
    }

    open spec fn spec_defines(&self) -> Seq<(Seq<char>, Seq<char>)> {
        Seq::empty()
    }

    proof fn lemma_flat_is_injective(a: Self, b: Self) {
    }

    fn flatten(&self) -> (r: usize) {
        0
    }

    fn total_permutations() -> (r: usize) {
        1
    }

    fn defines(&self) -> (r: Vec<(&'static str, String)>) {
        Vec::new()
    }

    fn from_flat_index(index: usize) -> Self {
    }
}

} // verus!
