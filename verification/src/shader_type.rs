//! Host types described the way slangc describes shader types, and the comparison of the two.
use vstd::prelude::*;
use crate::shader_reflection::{Binding, Parameter, Type};
use crate::text::{decimal, push_decimal};

verus! {

/// A scalar shader type.
#[derive(Clone, Copy, Debug, PartialEq, Eq, Structural)]
pub enum ScalarKind {
    Bool,
    Int8,
    UInt8,
    Int16,
    UInt16,
    Int32,
    UInt32,
    Int64,
    UInt64,
    Float32,
    Float64,
}

/// The `scalarType` string slangc writes into its reflection JSON.
pub open spec fn spec_slang_name(k: ScalarKind) -> Seq<char> {
    match k {
        ScalarKind::Bool => "bool"@,
        ScalarKind::Int8 => "int8"@,
        ScalarKind::UInt8 => "uint8"@,
        ScalarKind::Int16 => "int16"@,
        ScalarKind::UInt16 => "uint16"@,
        ScalarKind::Int32 => "int32"@,
        ScalarKind::UInt32 => "uint32"@,
        ScalarKind::Int64 => "int64"@,
        ScalarKind::UInt64 => "uint64"@,
        ScalarKind::Float32 => "float32"@,
        ScalarKind::Float64 => "float64"@,
    }
}

/// Different scalar kinds have different `scalarType` names, so a name names one kind.
pub proof fn law_slang_names_are_distinct(a: ScalarKind, b: ScalarKind)
    requires
        a != b,
    ensures
        spec_slang_name(a) != spec_slang_name(b),
{
    reveal_strlit("bool");
    reveal_strlit("int8");
    reveal_strlit("uint8");
    reveal_strlit("int16");
    reveal_strlit("uint16");
    reveal_strlit("int32");
    reveal_strlit("uint32");
    reveal_strlit("int64");
    reveal_strlit("uint64");
    reveal_strlit("float32");
    reveal_strlit("float64");
    if spec_slang_name(a) == spec_slang_name(b) {
        let x = spec_slang_name(a);
        assert(x.len() == spec_slang_name(b).len());
        assert(x[0] == spec_slang_name(b)[0]);
        assert(x[x.len() - 2] == spec_slang_name(b)[x.len() - 2]);
        assert(x[x.len() - 1] == spec_slang_name(b)[x.len() - 1]);
    }
}

/// How Slang source spells the scalar type.
pub open spec fn spec_source_name(k: ScalarKind) -> Seq<char> {
    match k {
        ScalarKind::Bool => "bool"@,
        ScalarKind::Int8 => "int8_t"@,
        ScalarKind::UInt8 => "uint8_t"@,
        ScalarKind::Int16 => "int16_t"@,
        ScalarKind::UInt16 => "uint16_t"@,
        ScalarKind::Int32 => "int"@,
        ScalarKind::UInt32 => "uint"@,
        ScalarKind::Int64 => "int64_t"@,
        ScalarKind::UInt64 => "uint64_t"@,
        ScalarKind::Float32 => "float"@,
        ScalarKind::Float64 => "double"@,
    }
}

/// Size in bytes of the scalar in a uniform buffer; Slang's `bool` is word-sized there.
pub open spec fn spec_scalar_size(k: ScalarKind) -> int {
    match k {
        ScalarKind::Bool => 4,
        ScalarKind::Int8 | ScalarKind::UInt8 => 1,
        ScalarKind::Int16 | ScalarKind::UInt16 => 2,
        ScalarKind::Int32 | ScalarKind::UInt32 | ScalarKind::Float32 => 4,
        ScalarKind::Int64 | ScalarKind::UInt64 | ScalarKind::Float64 => 8,
    }
}

impl ScalarKind {
    /// The `scalarType` string slangc writes into its reflection JSON.
    pub fn slang_name(self) -> (r: &'static str)
        ensures
            r@ == spec_slang_name(self),
    {
        match self {
            ScalarKind::Bool => "bool",
            ScalarKind::Int8 => "int8",
            ScalarKind::UInt8 => "uint8",
            ScalarKind::Int16 => "int16",
            ScalarKind::UInt16 => "uint16",
            ScalarKind::Int32 => "int32",
            ScalarKind::UInt32 => "uint32",
            ScalarKind::Int64 => "int64",
            ScalarKind::UInt64 => "uint64",
            ScalarKind::Float32 => "float32",
            ScalarKind::Float64 => "float64",
        }
    }

    /// How Slang source spells the scalar type.
    pub fn source_name(self) -> (r: &'static str)
        ensures
            r@ == spec_source_name(self),
    {
        match self {
            ScalarKind::Bool => "bool",
            ScalarKind::Int8 => "int8_t",
            ScalarKind::UInt8 => "uint8_t",
            ScalarKind::Int16 => "int16_t",
            ScalarKind::UInt16 => "uint16_t",
            ScalarKind::Int32 => "int",
            ScalarKind::UInt32 => "uint",
            ScalarKind::Int64 => "int64_t",
            ScalarKind::UInt64 => "uint64_t",
            ScalarKind::Float32 => "float",
            ScalarKind::Float64 => "double",
        }
    }

    /// Size in bytes of the scalar in a uniform buffer.
    pub fn size(self) -> (r: u32)
        ensures
            r == spec_scalar_size(self),
    {
        match self {
            ScalarKind::Bool => 4,
            ScalarKind::Int8 | ScalarKind::UInt8 => 1,
            ScalarKind::Int16 | ScalarKind::UInt16 => 2,
            ScalarKind::Int32 | ScalarKind::UInt32 | ScalarKind::Float32 => 4,
            ScalarKind::Int64 | ScalarKind::UInt64 | ScalarKind::Float64 => 8,
        }
    }
}

/// Location in the byte blob of a device address.
#[derive(Clone, Copy, Debug, PartialEq, Eq, Structural)]
pub struct AddressSlot {
    pub offset: u32,
    pub writable: bool,
}

/// One field of a [`TypeLayout::Struct`], at its real Rust offset.
#[derive(Debug)]
pub struct FieldLayout {
    pub name: &'static str,
    pub offset: u32,
    pub ty: TypeLayout,
}

/// A host type described the way slangc describes a shader type.
#[derive(Debug)]
pub enum TypeLayout {
    Unit,
    Scalar(ScalarKind),
    Vector { element_type: ScalarKind, element_count: u32 },
    Array { element_type: Box<TypeLayout>, element_count: u32 },
    /// `size` is `size_of` the Rust struct, including trailing padding.
    Struct { name: &'static str, size: u32, fields: Vec<FieldLayout> },
    DeviceAddress { pointee: Box<TypeLayout>, writable: bool },
}

/// The size in bytes of a host type.
pub open spec fn spec_size(t: TypeLayout) -> int
    decreases t,
{
    match t {
        TypeLayout::Unit => 0,
        TypeLayout::Scalar(k) => spec_scalar_size(k),
        TypeLayout::Vector { element_type, element_count } => spec_scalar_size(element_type)
            * element_count,
        TypeLayout::Array { element_type, element_count } => spec_size(*element_type)
            * element_count,
        TypeLayout::Struct { size, .. } => size as int,
        TypeLayout::DeviceAddress { .. } => 8,
    }
}

/// Whether computing the size of `t` stays within `u32`.
pub open spec fn size_computable(t: TypeLayout) -> bool
    decreases t,
{
    match t {
        TypeLayout::Vector { element_type, element_count } => spec_scalar_size(element_type)
            * element_count <= u32::MAX,
        TypeLayout::Array { element_type, element_count } => size_computable(*element_type)
            && spec_size(*element_type) * element_count <= u32::MAX,
        _ => true,
    }
}

/// Whether the size of every array element and struct field nested in `t` can be computed
/// within `u32`: the sizes the layout checks compute on their way.
pub open spec fn nested_sizes_computable(t: TypeLayout) -> bool
    decreases t, 0int, 0int,
{
    match t {
        TypeLayout::Array { element_type, .. } => size_computable(*element_type)
            && nested_sizes_computable(*element_type),
        TypeLayout::Struct { fields, .. } => fields_sizes_computable(fields@, fields@.len() as int),
        _ => true,
    }
}

/// [`nested_sizes_computable`] for the first `k` fields, each of which must also have a
/// computable size itself.
pub open spec fn fields_sizes_computable(fs: Seq<FieldLayout>, k: int) -> bool
    decreases fs, 0int, k,
{
    if k <= 0 || k > fs.len() {
        true
    } else {
        &&& fields_sizes_computable(fs, k - 1)
        &&& size_computable(fs[k - 1].ty)
        &&& nested_sizes_computable(fs[k - 1].ty)
    }
}

proof fn lemma_fields_sizes_at(fs: Seq<FieldLayout>, k: int, i: int)
    requires
        fields_sizes_computable(fs, k),
        0 <= i < k <= fs.len(),
    ensures
        size_computable(fs[i].ty),
        nested_sizes_computable(fs[i].ty),
    decreases k,
{
    if i < k - 1 {
        lemma_fields_sizes_at(fs, k - 1, i);
    }
}

/// The device-address slots of `t` placed at `base`, in the order the type lists them.
pub open spec fn spec_slots(t: TypeLayout, base: int) -> Seq<AddressSlot>
    decreases t, 0int, 0int,
{
    match t {
        TypeLayout::DeviceAddress { writable, .. } => seq![
            AddressSlot { offset: base as u32, writable },
        ],
        TypeLayout::Struct { fields, .. } => fields_slots(fields@, base, fields@.len() as int),
        TypeLayout::Array { element_type, element_count } => array_slots(
            *element_type,
            base,
            element_count as int,
        ),
        _ => Seq::empty(),
    }
}

/// The device-address slots of the first `k` fields, each placed at `base` plus its offset.
pub open spec fn fields_slots(fs: Seq<FieldLayout>, base: int, k: int) -> Seq<AddressSlot>
    decreases fs, 0int, k,
{
    if k <= 0 || k > fs.len() {
        Seq::empty()
    } else {
        fields_slots(fs, base, k - 1) + spec_slots(fs[k - 1].ty, base + fs[k - 1].offset)
    }
}

/// The device-address slots of the first `n` elements of an array of `elem`.
pub open spec fn array_slots(elem: TypeLayout, base: int, n: int) -> Seq<AddressSlot>
    decreases elem, 1int, n,
{
    if n <= 0 {
        Seq::empty()
    } else {
        array_slots(elem, base, n - 1) + spec_slots(elem, base + (n - 1) * spec_size(elem))
    }
}

/// Whether every field of every struct nested in `t` lies inside its struct: its offset
/// plus its size is at most the struct's size.
pub open spec fn fields_inside(t: TypeLayout) -> bool
    decreases t, 0int, 0int,
{
    match t {
        TypeLayout::Struct { size, fields, .. } => fields_inside_struct(fields@, size as int, fields@.len() as int),
        TypeLayout::Array { element_type, .. } => fields_inside(*element_type),
        _ => true,
    }
}

/// Whether the first `k` fields lie inside a struct of `size` bytes, and their own fields
/// inside them.
pub open spec fn fields_inside_struct(fs: Seq<FieldLayout>, size: int, k: int) -> bool
    decreases fs, 0int, k,
{
    if k <= 0 || k > fs.len() {
        true
    } else {
        &&& fields_inside_struct(fs, size, k - 1)
        &&& fs[k - 1].offset + spec_size(fs[k - 1].ty) <= size
        &&& fields_inside(fs[k - 1].ty)
    }
}

/// Whether every slot in `slots` holds its 8 bytes within `lo..hi`.
pub open spec fn slots_within(slots: Seq<AddressSlot>, lo: int, hi: int) -> bool {
    forall|i: int| 0 <= i < slots.len() ==> lo <= (#[trigger] slots[i]).offset && slots[i].offset + 8 <= hi
}

proof fn lemma_size_nonneg(t: TypeLayout)
    ensures
        spec_size(t) >= 0,
    decreases t,
{
    match t {
        TypeLayout::Vector { element_type, element_count } => {
            vstd::arithmetic::mul::lemma_mul_nonnegative(spec_scalar_size(element_type), element_count as int);
        },
        TypeLayout::Array { element_type, element_count } => {
            lemma_size_nonneg(*element_type);
            vstd::arithmetic::mul::lemma_mul_nonnegative(spec_size(*element_type), element_count as int);
        },
        _ => {},
    }
}

proof fn lemma_slots_within_concat(a: Seq<AddressSlot>, b: Seq<AddressSlot>, lo: int, hi: int)
    requires
        slots_within(a, lo, hi),
        slots_within(b, lo, hi),
    ensures
        slots_within(a + b, lo, hi),
{
    assert forall|i: int| 0 <= i < (a + b).len() implies lo <= (#[trigger] (a + b)[i]).offset && (a
        + b)[i].offset + 8 <= hi by {
        if i < a.len() {
            assert((a + b)[i] == a[i]);
        } else {
            assert((a + b)[i] == b[i - a.len()]);
        }
    }
}

proof fn lemma_slots_within(t: TypeLayout, base: int)
    requires
        fields_inside(t),
        slots_fit(t, base),
        0 <= base <= u32::MAX,
    ensures
        slots_within(spec_slots(t, base), base, base + spec_size(t)),
    decreases t, 0int, 0int,
{
    match t {
        TypeLayout::Struct { size, fields, .. } => {
            lemma_fields_slots_within(fields@, base, size as int, fields@.len() as int);
        },
        TypeLayout::Array { element_type, element_count } => {
            lemma_array_slots_within(*element_type, base, element_count as int);
        },
        _ => {},
    }
}

proof fn lemma_fields_slots_within(fs: Seq<FieldLayout>, base: int, size: int, k: int)
    requires
        fields_inside_struct(fs, size, k),
        fields_fit(fs, base, k),
        0 <= base,
    ensures
        slots_within(fields_slots(fs, base, k), base, base + size),
    decreases fs, 0int, k,
{
    if !(k <= 0 || k > fs.len()) {
        let f = fs[k - 1];
        lemma_fields_slots_within(fs, base, size, k - 1);
        lemma_slots_within(f.ty, base + f.offset);
        let inner = spec_slots(f.ty, base + f.offset);
        assert(slots_within(inner, base, base + size)) by {
            assert forall|i: int| 0 <= i < inner.len() implies base <= (#[trigger] inner[i]).offset
                && inner[i].offset + 8 <= base + size by {
            }
        }
        lemma_slots_within_concat(fields_slots(fs, base, k - 1), inner, base, base + size);
    }
}

proof fn lemma_array_slots_within(elem: TypeLayout, base: int, n: int)
    requires
        fields_inside(elem),
        size_computable(elem),
        array_fit(elem, base, n),
        0 <= base,
        n >= 0,
    ensures
        slots_within(array_slots(elem, base, n), base, base + spec_size(elem) * n),
    decreases elem, 1int, n,
{
    if n > 0 {
        lemma_array_slots_within(elem, base, n - 1);
        let at = base + (n - 1) * spec_size(elem);
        lemma_size_nonneg(elem);
        vstd::arithmetic::mul::lemma_mul_nonnegative(n - 1, spec_size(elem));
        lemma_slots_within(elem, at);
        vstd::arithmetic::mul::lemma_mul_is_distributive_add_other_way(spec_size(elem), n - 1, 1);
        vstd::arithmetic::mul::lemma_mul_is_commutative(n - 1, spec_size(elem));
        vstd::arithmetic::mul::lemma_mul_inequality(n - 1, n, spec_size(elem));
        vstd::arithmetic::mul::lemma_mul_is_commutative(n, spec_size(elem));
        let inner = spec_slots(elem, at);
        let before = array_slots(elem, base, n - 1);
        assert(slots_within(before, base, base + spec_size(elem) * n)) by {
            assert forall|i: int| 0 <= i < before.len() implies base <= (#[trigger] before[i]).offset
                && before[i].offset + 8 <= base + spec_size(elem) * n by {
            }
        }
        assert(slots_within(inner, base, base + spec_size(elem) * n)) by {
            assert forall|i: int| 0 <= i < inner.len() implies base <= (#[trigger] inner[i]).offset
                && inner[i].offset + 8 <= base + spec_size(elem) * n by {
            }
        }
        lemma_slots_within_concat(before, inner, base, base + spec_size(elem) * n);
    }
}

/// Every device-address slot of a type whose fields lie inside their structs holds its
/// 8 bytes inside the type: at an offset no less than 0 and no more than its size less 8.
pub proof fn law_address_slots_lie_inside_the_type(t: TypeLayout)
    requires
        fields_inside(t),
        slots_fit(t, 0),
    ensures
        forall|i: int|
            0 <= i < spec_slots(t, 0).len() ==> (#[trigger] spec_slots(t, 0)[i]).offset + 8
                <= spec_size(t),
{
    lemma_slots_within(t, 0);
}

/// Whether every slot offset that placing `t` at `base` computes stays within `u32`.
pub open spec fn slots_fit(t: TypeLayout, base: int) -> bool
    decreases t, 0int, 0int,
{
    match t {
        TypeLayout::Struct { fields, .. } => fields_fit(fields@, base, fields@.len() as int),
        TypeLayout::Array { element_type, element_count } => size_computable(*element_type)
            && array_fit(*element_type, base, element_count as int),
        _ => true,
    }
}

/// Whether the slot offsets of the first `k` fields, placed at `base`, stay within `u32`.
pub open spec fn fields_fit(fs: Seq<FieldLayout>, base: int, k: int) -> bool
    decreases fs, 0int, k,
{
    if k <= 0 || k > fs.len() {
        true
    } else {
        &&& fields_fit(fs, base, k - 1)
        &&& base + fs[k - 1].offset <= u32::MAX
        &&& slots_fit(fs[k - 1].ty, base + fs[k - 1].offset)
    }
}

/// Whether the slot offsets of the first `n` elements of an array of `elem`, placed at `base`,
/// stay within `u32`.
pub open spec fn array_fit(elem: TypeLayout, base: int, n: int) -> bool
    decreases elem, 1int, n,
{
    if n <= 0 {
        true
    } else {
        &&& array_fit(elem, base, n - 1)
        &&& base + (n - 1) * spec_size(elem) <= u32::MAX
        &&& slots_fit(elem, base + (n - 1) * spec_size(elem))
    }
}

proof fn lemma_fields_fit_at(fs: Seq<FieldLayout>, base: int, k: int, i: int)
    requires
        fields_fit(fs, base, k),
        0 <= i < k <= fs.len(),
    ensures
        base + fs[i].offset <= u32::MAX,
        slots_fit(fs[i].ty, base + fs[i].offset),
    decreases k,
{
    if i < k - 1 {
        lemma_fields_fit_at(fs, base, k - 1, i);
    }
}

proof fn lemma_array_fit_at(elem: TypeLayout, base: int, n: int, i: int)
    requires
        array_fit(elem, base, n),
        0 <= i < n,
    ensures
        base + i * spec_size(elem) <= u32::MAX,
        slots_fit(elem, base + i * spec_size(elem)),
    decreases n,
{
    if i < n - 1 {
        lemma_array_fit_at(elem, base, n - 1, i);
    }
}

impl TypeLayout {
    /// The size in bytes of this host type.
    pub fn size(&self) -> (r: u32)
        requires
            size_computable(*self),
        ensures
            r == spec_size(*self),
        decreases self,
    {
        match self {
            TypeLayout::Unit => 0,
            TypeLayout::Scalar(scalar) => scalar.size(),
            TypeLayout::Vector { element_type, element_count } => element_type.size()
                * *element_count,
            TypeLayout::Array { element_type, element_count } => element_type.size()
                * *element_count,
            TypeLayout::Struct { size, .. } => *size,
            TypeLayout::DeviceAddress { .. } => 8,
        }
    }

    /// Where the device addresses sit in a value of this type, in the order the type lists
    /// them.
    pub fn address_slots(&self) -> (r: Vec<AddressSlot>)
        requires
            slots_fit(*self, 0),
        ensures
            r@ == spec_slots(*self, 0),
    {
        let mut slots = Vec::new();
        self.collect_address_slots(0, &mut slots);
        assert(slots@ =~= spec_slots(*self, 0));
        slots
    }

    /// Appends the device-address slots of this type placed at `base`.
    fn collect_address_slots(&self, base: u32, slots: &mut Vec<AddressSlot>)
        requires
            slots_fit(*self, base as int),
        ensures
            final(slots)@ == old(slots)@ + spec_slots(*self, base as int),
        decreases self,
    {
        match self {
            TypeLayout::DeviceAddress { writable, .. } => {
                slots.push(AddressSlot { offset: base, writable: *writable });
            },
            TypeLayout::Struct { fields, .. } => {
                let ghost start = slots@;
                let mut i: usize = 0;
                while i < fields.len()
                    invariant
                        0 <= i <= fields@.len(),
                        slots_fit(*self, base as int),
                        *self matches TypeLayout::Struct { fields: fs, .. } && fs == fields,
                        slots@ == start + fields_slots(fields@, base as int, i as int),
                        fields_fit(fields@, base as int, fields@.len() as int),
                    decreases fields@.len() - i,
                {
                    let field = &fields[i];
                    proof {
                        lemma_fields_fit_at(fields@, base as int, fields@.len() as int, i as int);
                    }
                    proof {
                        assert(decreases_to!(*self => fields@[i as int].ty));
                    }
                    field.ty.collect_address_slots(base + field.offset, slots);
                    i += 1;
                    assert(slots@ =~= start + fields_slots(fields@, base as int, i as int));
                }
            },
            TypeLayout::Array { element_type, element_count } => {
                let stride = element_type.size();
                let ghost start = slots@;
                let mut i: u32 = 0;
                while i < *element_count
                    invariant
                        0 <= i <= *element_count,
                        stride == spec_size(**element_type),
                        slots_fit(*self, base as int),
                        *self matches TypeLayout::Array { element_type: e, element_count: n } && e
                            == element_type && n == element_count,
                        slots@ == start + array_slots(**element_type, base as int, i as int),
                        array_fit(**element_type, base as int, *element_count as int),
                    decreases *element_count - i,
                {
                    proof {
                        lemma_array_fit_at(
                            **element_type,
                            base as int,
                            *element_count as int,
                            i as int,
                        );
                    }
                    proof {
                        vstd::arithmetic::mul::lemma_mul_nonnegative(i as int, stride as int);
                    }
                    element_type.collect_address_slots(base + i * stride, slots);
                    i += 1;
                    assert(slots@ =~= start + array_slots(**element_type, base as int, i as int));
                }
            },
            TypeLayout::Unit | TypeLayout::Scalar(_) | TypeLayout::Vector { .. } => {
                assert(slots@ =~= old(slots)@ + spec_slots(*self, base as int));
            },
        }
    }
}

/// A `(path, message)` pair: the view of a [`LayoutMismatch`].
pub type MismatchView = (Seq<char>, Seq<char>);

/// The views of a list of mismatches.
pub open spec fn mviews(v: Seq<LayoutMismatch>) -> Seq<MismatchView> {
    v.map_values(|m: LayoutMismatch| (m.path@, m.message@))
}

/// The decimal text of a number.
pub open spec fn dec(n: int) -> Seq<char> {
    decimal(n as nat)
}

/// What to call a host type in a mismatch message.
pub open spec fn spec_kind_name(t: TypeLayout) -> Seq<char> {
    match t {
        TypeLayout::Unit => "unit"@,
        TypeLayout::Scalar(_) => "scalar"@,
        TypeLayout::Vector { .. } => "vector"@,
        TypeLayout::Array { .. } => "array"@,
        TypeLayout::Struct { .. } => "struct"@,
        TypeLayout::DeviceAddress { .. } => "device address"@,
    }
}

/// How Slang source names a host type, where it has a name.
pub open spec fn spec_type_source_name(t: TypeLayout) -> Option<Seq<char>> {
    match t {
        TypeLayout::Scalar(k) => Some(spec_source_name(k)),
        TypeLayout::Struct { name, .. } => Some(name@),
        _ => None,
    }
}

/// The path a mismatch in a host type is reported under.
pub open spec fn spec_root_path(t: TypeLayout) -> Seq<char> {
    match t {
        TypeLayout::Struct { name, .. } => name@,
        TypeLayout::Unit => "()"@,
        _ => "<value>"@,
    }
}

/// What to call a reflected type in a mismatch message.
pub open spec fn spec_reflected_kind_name(r: Type) -> Seq<char> {
    match r {
        Type::Struct { .. } => "a struct"@,
        Type::ConstantBuffer { .. } => "a constant buffer"@,
        Type::Resource { .. } => "a resource"@,
        Type::Scalar { .. } => "a scalar"@,
        Type::Vector { .. } => "a vector"@,
        Type::Array { .. } => "an array"@,
        Type::Matrix { .. } => "a matrix"@,
        Type::Pointer { .. } => "a pointer"@,
        Type::SamplerState => "a sampler state"@,
    }
}

/// The name of a reflected field, or `<unnamed>`.
pub open spec fn spec_param_name(p: Parameter) -> Seq<char> {
    match p.name {
        Some(n) => n@,
        None => "<unnamed>"@,
    }
}

/// The items of `names`, separated by `", "`.
pub open spec fn join_names(names: Seq<Seq<char>>) -> Seq<char>
    decreases names.len(),
{
    if names.len() == 0 {
        Seq::empty()
    } else if names.len() == 1 {
        names[0]
    } else {
        join_names(names.drop_last()) + ", "@ + names.last()
    }
}

/// The disagreement between the number of host and shader struct fields, if any.
pub open spec fn field_count_mismatch(
    hf: Seq<FieldLayout>,
    rf: Seq<Parameter>,
    path: Seq<char>,
) -> Seq<MismatchView> {
    if hf.len() != rf.len() {
        seq![
            (path, "host struct has "@ + dec(hf.len() as int) + " fields ["@ + join_names(
                hf.map_values(|f: FieldLayout| f.name@),
            ) + "], shader struct has "@ + dec(rf.len() as int) + " fields ["@ + join_names(
                rf.map_values(|p: Parameter| spec_param_name(p)),
            ) + "]"@),
        ]
    } else {
        Seq::empty()
    }
}

/// The disagreement between a field's host size and the size the shader gives it, if any:
/// leaf fields must match exactly, composite ones only have to fit.
pub open spec fn field_size_mismatch(host: TypeLayout, reflected_size: int, path: Seq<char>) -> Seq<
    MismatchView,
> {
    let host_size = spec_size(host);
    let disagrees = match host {
        TypeLayout::Scalar(_) | TypeLayout::Vector { .. } | TypeLayout::DeviceAddress {
            ..
        } => host_size != reflected_size,
        TypeLayout::Unit => false,
        TypeLayout::Array { .. } | TypeLayout::Struct { .. } => host_size > reflected_size,
    };
    if disagrees {
        seq![
            (path, "host field is "@ + dec(host_size) + " bytes, shader field is "@ + dec(
                reflected_size,
            ) + " bytes"@),
        ]
    } else {
        Seq::empty()
    }
}

/// Every disagreement between a host type and a reflected shader type, in the order the
/// comparison finds them.
pub open spec fn type_mismatches(host: TypeLayout, r: Type, path: Seq<char>) -> Seq<MismatchView>
    decreases r, 0int,
{
    match host {
        TypeLayout::Scalar(k) => match r {
            Type::Scalar { scalar_type } => if spec_slang_name(k) != scalar_type@ {
                seq![
                    (path, "host type is "@ + spec_slang_name(k) + ", shader type is "@
                        + scalar_type@),
                ]
            } else {
                Seq::empty()
            },
            _ => kind_mismatch(host, r, path),
        },
        TypeLayout::Vector { element_type, element_count } => match r {
            Type::Vector { element_count: rc, element_type: re } => (if element_count != rc {
                seq![
                    (path, "host type has "@ + dec(element_count as int)
                        + " components, shader type has "@ + dec(rc as int)),
                ]
            } else {
                Seq::empty()
            }) + type_mismatches(TypeLayout::Scalar(element_type), *re, path),
            _ => kind_mismatch(host, r, path),
        },
        TypeLayout::Struct { fields, .. } => match r {
            Type::Struct { fields: rf, .. } => field_count_mismatch(fields@, rf@, path)
                + fields_mismatches(
                fields@,
                rf@,
                if fields@.len() <= rf@.len() {
                    fields@.len() as int
                } else {
                    rf@.len() as int
                },
                path,
            ),
            _ => kind_mismatch(host, r, path),
        },
        TypeLayout::Array { element_type, element_count } => match r {
            Type::Array { element_count: rc, element_type: re, uniform_stride } => (
            if element_count != rc {
                seq![
                    (path, "host type has "@ + dec(element_count as int)
                        + " elements, shader type has "@ + dec(rc as int)),
                ]
            } else {
                Seq::empty()
            }) + (if uniform_stride != 0 && spec_size(*element_type) != uniform_stride {
                seq![
                    (path, "host elements are "@ + dec(spec_size(*element_type))
                        + " bytes apart, shader elements are "@ + dec(uniform_stride as int)
                        + " bytes apart"@),
                ]
            } else {
                Seq::empty()
            }) + type_mismatches(*element_type, *re, path),
            _ => kind_mismatch(host, r, path),
        },
        TypeLayout::DeviceAddress { pointee, .. } => match r {
            Type::Pointer { value_type } => match spec_type_source_name(*pointee) {
                Some(host_name) => if host_name != value_type@ {
                    seq![
                        (path, "host points at "@ + host_name + ", shader points at "@
                            + value_type@),
                    ]
                } else {
                    Seq::empty()
                },
                None => Seq::empty(),
            },
            _ => kind_mismatch(host, r, path),
        },
        TypeLayout::Unit => kind_mismatch(host, r, path),
    }
}

/// The mismatch reported when a host type and a reflected type are of different kinds.
pub open spec fn kind_mismatch(host: TypeLayout, r: Type, path: Seq<char>) -> Seq<MismatchView> {
    seq![
        (path, "host type is a "@ + spec_kind_name(host) + ", shader type is "@
            + spec_reflected_kind_name(r)),
    ]
}

/// The disagreements of the first `k` host fields with the reflected fields at the same
/// positions.
pub open spec fn fields_mismatches(
    hf: Seq<FieldLayout>,
    rf: Seq<Parameter>,
    k: int,
    path: Seq<char>,
) -> Seq<MismatchView>
    decreases rf, k,
{
    if k <= 0 || k > hf.len() || k > rf.len() {
        Seq::empty()
    } else {
        let field = hf[k - 1];
        let reflected = rf[k - 1];
        let field_path = path + "."@ + field.name@;
        let reflected_name = spec_param_name(reflected);
        fields_mismatches(hf, rf, k - 1, path) + (if field.name@ != reflected_name {
            seq![
                (field_path, "shader field at this position is named `"@ + reflected_name
                    + "`"@),
            ]
        } else {
            Seq::empty()
        }) + match reflected.binding {
            Some(Binding::Uniform { offset, size, .. }) => (if field.offset != offset {
                seq![
                    (field_path, "host field is at offset "@ + dec(field.offset as int)
                        + ", shader field is at offset "@ + dec(offset as int)),
                ]
            } else {
                Seq::empty()
            }) + field_size_mismatch(field.ty, size as int, field_path),
            Some(_) => seq![(field_path, "shader field is not laid out in a uniform buffer"@)],
            None => seq![(field_path, "shader field has no binding information"@)],
        } + type_mismatches(field.ty, reflected.ty, field_path)
    }
}

/// Whether `q` is `path` itself or lies below it: `path` followed by a dot and more.
pub open spec fn path_under(q: Seq<char>, path: Seq<char>) -> bool {
    q == path || (q.len() > path.len() && q.take(path.len() as int + 1) == path + "."@)
}

/// Whether every mismatch in `ms` is reported at `path` or below it.
pub open spec fn all_under(ms: Seq<MismatchView>, path: Seq<char>) -> bool {
    forall|i: int| 0 <= i < ms.len() ==> path_under(#[trigger] ms[i].0, path)
}

proof fn lemma_all_under_concat(a: Seq<MismatchView>, b: Seq<MismatchView>, path: Seq<char>)
    requires
        all_under(a, path),
        all_under(b, path),
    ensures
        all_under(a + b, path),
{
    assert forall|i: int| 0 <= i < (a + b).len() implies path_under(#[trigger] (a + b)[i].0, path) by {
        if i < a.len() {
            assert((a + b)[i] == a[i]);
        } else {
            assert((a + b)[i] == b[i - a.len()]);
        }
    }
}

/// What lies below a field's path lies below the path of the struct holding the field.
proof fn lemma_all_under_field(ms: Seq<MismatchView>, path: Seq<char>, name: Seq<char>)
    requires
        all_under(ms, path + "."@ + name),
    ensures
        all_under(ms, path),
{
    reveal_strlit(".");
    let fp = path + "."@ + name;
    assert(fp.take(path.len() as int + 1) =~= path + "."@);
    assert forall|i: int| 0 <= i < ms.len() implies path_under(#[trigger] ms[i].0, path) by {
        let q = ms[i].0;
        if q != fp {
            assert(q.take(fp.len() as int + 1) == fp + "."@);
            assert(q.take(path.len() as int + 1) =~= q.take(fp.len() as int + 1).take(
                path.len() as int + 1,
            ));
            assert((fp + "."@).take(path.len() as int + 1) =~= path + "."@);
        }
    }
}

proof fn lemma_type_mismatch_paths(host: TypeLayout, r: Type, path: Seq<char>)
    ensures
        all_under(type_mismatches(host, r, path), path),
    decreases r, 0int,
{
    let ms = type_mismatches(host, r, path);
    match host {
        TypeLayout::Vector { element_type, .. } => match r {
            Type::Vector { element_type: re, .. } => {
                lemma_type_mismatch_paths(TypeLayout::Scalar(element_type), *re, path);
            },
            _ => {},
        },
        TypeLayout::Struct { fields, .. } => match r {
            Type::Struct { fields: rf, .. } => {
                let k = if fields@.len() <= rf@.len() {
                    fields@.len() as int
                } else {
                    rf@.len() as int
                };
                lemma_fields_mismatch_paths(fields@, rf@, k, path);
                lemma_all_under_concat(field_count_mismatch(fields@, rf@, path), fields_mismatches(fields@, rf@, k, path), path);
            },
            _ => {},
        },
        TypeLayout::Array { element_type, .. } => match r {
            Type::Array { element_type: re, .. } => {
                lemma_type_mismatch_paths(*element_type, *re, path);
            },
            _ => {},
        },
        _ => {},
    }
    assert forall|i: int| 0 <= i < ms.len() implies path_under(#[trigger] ms[i].0, path) by {
        match host {
            TypeLayout::Vector { element_type, .. } => match r {
                Type::Vector { element_count: rc, element_type: re } => {
                    let tail = type_mismatches(TypeLayout::Scalar(element_type), *re, path);
                    let head = ms.take(ms.len() - tail.len());
                    assert(ms =~= head + tail);
                    if i >= head.len() {
                        assert(ms[i] == tail[i - head.len()]);
                    }
                },
                _ => {},
            },
            TypeLayout::Array { element_type, .. } => match r {
                Type::Array { element_type: re, .. } => {
                    let tail = type_mismatches(*element_type, *re, path);
                    let head = ms.take(ms.len() - tail.len());
                    assert(ms =~= head + tail);
                    if i >= head.len() {
                        assert(ms[i] == tail[i - head.len()]);
                    }
                },
                _ => {},
            },
            _ => {},
        }
    }
}

proof fn lemma_fields_mismatch_paths(hf: Seq<FieldLayout>, rf: Seq<Parameter>, k: int, path: Seq<char>)
    ensures
        all_under(fields_mismatches(hf, rf, k, path), path),
    decreases rf, k,
{
    if !(k <= 0 || k > hf.len() || k > rf.len()) {
        let field = hf[k - 1];
        let reflected = rf[k - 1];
        let field_path = path + "."@ + field.name@;
        lemma_fields_mismatch_paths(hf, rf, k - 1, path);
        lemma_type_mismatch_paths(field.ty, reflected.ty, field_path);
        let ms = fields_mismatches(hf, rf, k, path);
        let prev = fields_mismatches(hf, rf, k - 1, path);
        let rest = ms.skip(prev.len() as int);
        assert(ms =~= prev + rest);
        assert(all_under(rest, field_path));
        lemma_all_under_field(rest, path, field.name@);
        lemma_all_under_concat(prev, rest, path);
    }
}

/// Whether `host` is an array whose elements lie a different distance apart than the
/// shader's array elements, which the shader spaces by a nonzero stride.
pub open spec fn stride_differs(host: TypeLayout, r: Type) -> bool {
    match (host, r) {
        (TypeLayout::Array { element_type, .. }, Type::Array { uniform_stride, .. }) => uniform_stride
            != 0 && spec_size(*element_type) != uniform_stride,
        _ => false,
    }
}

/// An array whose element size differs from the shader's nonzero element stride is reported
/// at the array's own path, whichever of the two is larger.
pub proof fn law_array_stride_mismatch_is_reported(host: TypeLayout, r: Type, path: Seq<char>)
    requires
        stride_differs(host, r),
    ensures
        exists|i: int|
            0 <= i < type_mismatches(host, r, path).len() && (#[trigger] type_mismatches(host, r, path)[i]).0
                == path,
{
    match (host, r) {
        (TypeLayout::Array { element_type, element_count }, Type::Array {
            element_count: rc,
            element_type: re,
            uniform_stride,
        }) => {
            let a: Seq<MismatchView> = if element_count != rc {
                seq![
                    (path, "host type has "@ + dec(element_count as int)
                        + " elements, shader type has "@ + dec(rc as int)),
                ]
            } else {
                Seq::empty()
            };
            let m = (path, "host elements are "@ + dec(spec_size(*element_type))
                + " bytes apart, shader elements are "@ + dec(uniform_stride as int) + " bytes apart"@);
            let c = type_mismatches(*element_type, *re, path);
            assert(type_mismatches(host, r, path) == a + seq![m] + c);
            assert((a + seq![m] + c)[a.len() as int] == m);
        },
        _ => {},
    }
}

/// Checking a host array against a shader array whose nonzero stride differs from the host
/// element size fails.
pub proof fn law_check_fails_on_a_stride_mismatch(host: TypeLayout, r: Type, result: Result<(), Vec<LayoutMismatch>>)
    requires
        stride_differs(host, r),
        finished(result, type_mismatches(host, r, spec_root_path(host))),
    ensures
        result is Err,
{
    law_array_stride_mismatch_is_reported(host, r, spec_root_path(host));
}

/// Every mismatch the type comparison reports is at the path it was given, or below it: the
/// path followed by a dot and a field's name.
pub proof fn law_mismatches_lie_under_their_path(host: TypeLayout, r: Type, path: Seq<char>)
    ensures
        forall|i: int|
            0 <= i < type_mismatches(host, r, path).len() ==> path_under(
                #[trigger] type_mismatches(host, r, path)[i].0,
                path,
            ),
{
    lemma_type_mismatch_paths(host, r, path);
}

/// The disagreements between a host type and the reflected type of a uniform block (a
/// constant buffer or push constant block) that `noun` names.
pub open spec fn uniform_block_mismatches(host: TypeLayout, r: Type, noun: Seq<char>) -> Seq<
    MismatchView,
> {
    let path = spec_root_path(host);
    match r {
        Type::ConstantBuffer { element_type, element_var_layout, .. } => type_mismatches(
            host,
            *element_type,
            path,
        ) + match element_var_layout {
            Some(layout) => match layout.binding {
                Binding::Uniform { size, .. } => if spec_size(host) > size {
                    seq![
                        (path, "host type is "@ + dec(spec_size(host))
                            + " bytes, but the shader reserved "@ + dec(size as int)
                            + " bytes for the "@ + noun),
                    ]
                } else {
                    Seq::empty()
                },
                _ => Seq::empty(),
            },
            None => Seq::empty(),
        },
        _ => seq![
            (path, "shader parameter is "@ + spec_reflected_kind_name(r) + ", not a "@ + noun),
        ],
    }
}

/// The disagreements between a kernel's push constant type and the push constant block the
/// shader declares, if it declares one.
pub open spec fn push_constant_mismatches(host: TypeLayout, r: Option<Type>) -> Seq<MismatchView> {
    let path = spec_root_path(host);
    match r {
        None => match host {
            TypeLayout::Unit => Seq::empty(),
            _ => seq![
                (path,
                "the kernel declares a PushConstant, but the shader has no [vk::push_constant] parameter"@),
            ],
        },
        Some(t) => match host {
            TypeLayout::Unit => seq![
                (path,
                "the shader declares a push constant block, but the kernel's PushConstant type is `()`"@),
            ],
            _ => uniform_block_mismatches(host, t, "push constant block"@),
        },
    }
}

/// The disagreements between a host type and the reflected type of a structured buffer.
pub open spec fn structured_buffer_mismatches(host: TypeLayout, r: Type) -> Seq<MismatchView> {
    let path = spec_root_path(host);
    match r {
        Type::Resource { result_type, .. } => match result_type {
            None => seq![(path, "shader parameter does not report an element type"@)],
            Some(t) => type_mismatches(host, *t, path),
        },
        _ => seq![
            (path, "shader parameter is "@ + spec_reflected_kind_name(r)
                + ", not a structured buffer"@),
        ],
    }
}

/// `Ok` exactly when there is nothing to report, and otherwise every mismatch.
pub open spec fn finished(r: Result<(), Vec<LayoutMismatch>>, expected: Seq<MismatchView>) -> bool {
    match r {
        Ok(()) => expected.len() == 0,
        Err(v) => expected.len() > 0 && mviews(v@) == expected,
    }
}

/// One disagreement between a host type and a reflected shader type.
pub struct LayoutMismatch {
    /// Dotted path to the offending field, e.g. `CameraUniform.position`.
    pub path: String,
    pub message: String,
}

impl LayoutMismatch {
    /// `path: message`.
    pub fn to_string(&self) -> (r: String)
        ensures
            r@ == self.path@ + ": "@ + self.message@,
    {
        let mut r = self.path.clone();
        r.append(": ");
        r.append(self.message.as_str());
        r
    }
}

/// Every mismatch on a line of its own, indented by two spaces.
pub open spec fn mismatch_lines(ms: Seq<LayoutMismatch>) -> Seq<char>
    decreases ms.len(),
{
    if ms.len() == 0 {
        Seq::empty()
    } else if ms.len() == 1 {
        "  "@ + ms[0].path@ + ": "@ + ms[0].message@
    } else {
        mismatch_lines(ms.drop_last()) + "\n"@ + "  "@ + ms.last().path@ + ": "@
            + ms.last().message@
    }
}

/// Lists mismatches one per line, indented by two spaces.
pub fn format_mismatches(mismatches: &[LayoutMismatch]) -> (r: String)
    ensures
        r@ == mismatch_lines(mismatches@),
{
    let mut out = String::new();
    let mut i: usize = 0;
    while i < mismatches.len()
        invariant
            0 <= i <= mismatches@.len(),
            out@ == mismatch_lines(mismatches@.take(i as int)),
        decreases mismatches@.len() - i,
    {
        if i > 0 {
            out.append("\n");
        }
        out.append("  ");
        out.append(mismatches[i].path.as_str());
        out.append(": ");
        out.append(mismatches[i].message.as_str());
        proof {
            let t = mismatches@.take(i + 1);
            assert(t.drop_last() =~= mismatches@.take(i as int));
            if i == 0 {
                assert(out@ =~= mismatch_lines(t));
            } else {
                assert(out@ =~= mismatch_lines(t));
            }
        }
        i += 1;
    }
    assert(mismatches@.take(mismatches@.len() as int) =~= mismatches@);
    out
}

/// Whether two texts are equal.
fn text_eq(a: &str, b: &str) -> (r: bool)
    ensures
        r == (a@ == b@),
{
    let x = String::from_str(a);
    let y = String::from_str(b);
    x == y
}

fn push_mismatch(mismatches: &mut Vec<LayoutMismatch>, path: &String, message: String)
    ensures
        mviews(final(mismatches)@) == mviews(old(mismatches)@).push((path@, message@)),
{
    mismatches.push(LayoutMismatch { path: path.clone(), message });
    assert(mviews(mismatches@) =~= mviews(old(mismatches)@).push((path@, message@)));
}

fn param_name(p: &Parameter) -> (r: &str)
    ensures
        r@ == spec_param_name(*p),
{
    match &p.name {
        Some(n) => n.as_str(),
        None => "<unnamed>",
    }
}

fn kind_name(t: &TypeLayout) -> (r: &'static str)
    ensures
        r@ == spec_kind_name(*t),
{
    match t {
        TypeLayout::Unit => "unit",
        TypeLayout::Scalar(_) => "scalar",
        TypeLayout::Vector { .. } => "vector",
        TypeLayout::Array { .. } => "array",
        TypeLayout::Struct { .. } => "struct",
        TypeLayout::DeviceAddress { .. } => "device address",
    }
}

fn type_source_name(t: &TypeLayout) -> (r: Option<&'static str>)
    ensures
        match (r, spec_type_source_name(*t)) {
            (Some(a), Some(b)) => a@ == b,
            (None, None) => true,
            _ => false,
        },
{
    match t {
        TypeLayout::Scalar(scalar) => Some(scalar.source_name()),
        TypeLayout::Struct { name, .. } => Some(name),
        _ => None,
    }
}

fn root_path(t: &TypeLayout) -> (r: String)
    ensures
        r@ == spec_root_path(*t),
{
    match t {
        TypeLayout::Struct { name, .. } => String::from_str(name),
        TypeLayout::Unit => String::from_str("()"),
        _ => String::from_str("<value>"),
    }
}

fn reflected_kind_name(r: &Type) -> (s: &'static str)
    ensures
        s@ == spec_reflected_kind_name(*r),
{
    match r {
        Type::Struct { .. } => "a struct",
        Type::ConstantBuffer { .. } => "a constant buffer",
        Type::Resource { .. } => "a resource",
        Type::Scalar { .. } => "a scalar",
        Type::Vector { .. } => "a vector",
        Type::Array { .. } => "an array",
        Type::Matrix { .. } => "a matrix",
        Type::Pointer { .. } => "a pointer",
        Type::SamplerState => "a sampler state",
    }
}

fn push_kind_mismatch(
    host: &TypeLayout,
    reflected: &Type,
    path: &String,
    mismatches: &mut Vec<LayoutMismatch>,
)
    ensures
        mviews(final(mismatches)@) == mviews(old(mismatches)@) + kind_mismatch(
            *host,
            *reflected,
            path@,
        ),
{
    let mut msg = String::from_str("host type is a ");
    msg.append(kind_name(host));
    msg.append(", shader type is ");
    msg.append(reflected_kind_name(reflected));
    push_mismatch(mismatches, path, msg);
    assert(mviews(mismatches@) =~= mviews(old(mismatches)@) + kind_mismatch(
        *host,
        *reflected,
        path@,
    ));
}

fn check_type(
    host: &TypeLayout,
    reflected: &Type,
    path: &String,
    mismatches: &mut Vec<LayoutMismatch>,
)
    requires
        nested_sizes_computable(*host),
    ensures
        mviews(final(mismatches)@) == mviews(old(mismatches)@) + type_mismatches(
            *host,
            *reflected,
            path@,
        ),
    decreases reflected,
{
    let ghost start = mviews(mismatches@);
    match host {
        TypeLayout::Scalar(host_scalar) => match reflected {
            Type::Scalar { scalar_type } => {
                if !text_eq(host_scalar.slang_name(), scalar_type.as_str()) {
                    let mut msg = String::from_str("host type is ");
                    msg.append(host_scalar.slang_name());
                    msg.append(", shader type is ");
                    msg.append(scalar_type.as_str());
                    push_mismatch(mismatches, path, msg);
                }
                assert(mviews(mismatches@) =~= start + type_mismatches(
                    *host,
                    *reflected,
                    path@,
                ));
            },
            _ => push_kind_mismatch(host, reflected, path, mismatches),
        },
        TypeLayout::Vector { element_type, element_count } => match reflected {
            Type::Vector {
                element_count: reflected_element_count,
                element_type: reflected_element_type,
            } => {
                if *element_count != *reflected_element_count {
                    let mut msg = String::from_str("host type has ");
                    push_decimal(&mut msg, *element_count as u64);
                    msg.append(" components, shader type has ");
                    push_decimal(&mut msg, *reflected_element_count as u64);
                    push_mismatch(mismatches, path, msg);
                }
                let ghost mid = mviews(mismatches@);
                check_type(
                    &TypeLayout::Scalar(*element_type),
                    reflected_element_type,
                    path,
                    mismatches,
                );
                assert(mviews(mismatches@) =~= start + type_mismatches(
                    *host,
                    *reflected,
                    path@,
                ));
            },
            _ => push_kind_mismatch(host, reflected, path, mismatches),
        },
        TypeLayout::Struct { fields, .. } => match reflected {
            Type::Struct { fields: reflected_fields, .. } => {
                check_fields(fields, reflected_fields, path, mismatches);
                assert(mviews(mismatches@) =~= start + type_mismatches(
                    *host,
                    *reflected,
                    path@,
                ));
            },
            _ => push_kind_mismatch(host, reflected, path, mismatches),
        },
        TypeLayout::Array { element_type, element_count } => match reflected {
            Type::Array {
                element_count: reflected_element_count,
                element_type: reflected_element_type,
                uniform_stride,
            } => {
                if *element_count != *reflected_element_count {
                    let mut msg = String::from_str("host type has ");
                    push_decimal(&mut msg, *element_count as u64);
                    msg.append(" elements, shader type has ");
                    push_decimal(&mut msg, *reflected_element_count as u64);
                    push_mismatch(mismatches, path, msg);
                }
                // A Rust array is packed, so its stride is just the element size.
                // Slang's is the layout's, which for std140 rounds up to 16.
                let host_stride = element_type.size();
                if *uniform_stride != 0 && host_stride != *uniform_stride {
                    let mut msg = String::from_str("host elements are ");
                    push_decimal(&mut msg, host_stride as u64);
                    msg.append(" bytes apart, shader elements are ");
                    push_decimal(&mut msg, *uniform_stride as u64);
                    msg.append(" bytes apart");
                    push_mismatch(mismatches, path, msg);
                }
                check_type(element_type, reflected_element_type, path, mismatches);
                assert(mviews(mismatches@) =~= start + type_mismatches(
                    *host,
                    *reflected,
                    path@,
                ));
            },
            _ => push_kind_mismatch(host, reflected, path, mismatches),
        },
        TypeLayout::DeviceAddress { pointee, .. } => match reflected {
            Type::Pointer { value_type } => {
                if let Some(host_name) = type_source_name(pointee) {
                    if !text_eq(host_name, value_type.as_str()) {
                        let mut msg = String::from_str("host points at ");
                        msg.append(host_name);
                        msg.append(", shader points at ");
                        msg.append(value_type.as_str());
                        push_mismatch(mismatches, path, msg);
                    }
                }
                assert(mviews(mismatches@) =~= start + type_mismatches(
                    *host,
                    *reflected,
                    path@,
                ));
            },
            _ => push_kind_mismatch(host, reflected, path, mismatches),
        },
        TypeLayout::Unit => push_kind_mismatch(host, reflected, path, mismatches),
    }
}

fn join_field_names(fields: &Vec<FieldLayout>) -> (r: String)
    ensures
        r@ == join_names(fields@.map_values(|f: FieldLayout| f.name@)),
{
    let ghost names = fields@.map_values(|f: FieldLayout| f.name@);
    let mut out = String::new();
    let mut i: usize = 0;
    while i < fields.len()
        invariant
            0 <= i <= fields@.len(),
            names == fields@.map_values(|f: FieldLayout| f.name@),
            out@ == join_names(names.take(i as int)),
        decreases fields@.len() - i,
    {
        if i > 0 {
            out.append(", ");
        }
        out.append(fields[i].name);
        proof {
            assert(names.take(i + 1).drop_last() =~= names.take(i as int));
            if i == 0 {
                assert(out@ =~= join_names(names.take(i + 1)));
            } else {
                assert(out@ =~= join_names(names.take(i + 1)));
            }
        }
        i += 1;
    }
    assert(names.take(fields@.len() as int) =~= names);
    out
}

fn join_param_names(params: &Vec<Parameter>) -> (r: String)
    ensures
        r@ == join_names(params@.map_values(|p: Parameter| spec_param_name(p))),
{
    let ghost names = params@.map_values(|p: Parameter| spec_param_name(p));
    let mut out = String::new();
    let mut i: usize = 0;
    while i < params.len()
        invariant
            0 <= i <= params@.len(),
            names == params@.map_values(|p: Parameter| spec_param_name(p)),
            out@ == join_names(names.take(i as int)),
        decreases params@.len() - i,
    {
        if i > 0 {
            out.append(", ");
        }
        out.append(param_name(&params[i]));
        proof {
            assert(names.take(i + 1).drop_last() =~= names.take(i as int));
            if i == 0 {
                assert(out@ =~= join_names(names.take(i + 1)));
            } else {
                assert(out@ =~= join_names(names.take(i + 1)));
            }
        }
        i += 1;
    }
    assert(names.take(params@.len() as int) =~= names);
    out
}

fn check_field_size(
    host: &TypeLayout,
    reflected_size: u32,
    path: &String,
    mismatches: &mut Vec<LayoutMismatch>,
)
    requires
        size_computable(*host),
    ensures
        mviews(final(mismatches)@) == mviews(old(mismatches)@) + field_size_mismatch(
            *host,
            reflected_size as int,
            path@,
        ),
{
    let host_size = host.size();
    let disagrees = match host {
        TypeLayout::Scalar(_) | TypeLayout::Vector { .. } | TypeLayout::DeviceAddress {
            ..
        } => host_size != reflected_size,
        // A unit field has no counterpart at all; `check_type` reports it.
        TypeLayout::Unit => false,
        TypeLayout::Array { .. } | TypeLayout::Struct { .. } => host_size > reflected_size,
    };
    if disagrees {
        let mut msg = String::from_str("host field is ");
        push_decimal(&mut msg, host_size as u64);
        msg.append(" bytes, shader field is ");
        push_decimal(&mut msg, reflected_size as u64);
        msg.append(" bytes");
        push_mismatch(mismatches, path, msg);
    }
    assert(mviews(mismatches@) =~= mviews(old(mismatches)@) + field_size_mismatch(
        *host,
        reflected_size as int,
        path@,
    ));
}

fn check_fields(
    fields: &Vec<FieldLayout>,
    reflected_fields: &Vec<Parameter>,
    path: &String,
    mismatches: &mut Vec<LayoutMismatch>,
)
    requires
        fields_sizes_computable(fields@, fields@.len() as int),
    ensures
        mviews(final(mismatches)@) == mviews(old(mismatches)@) + field_count_mismatch(
            fields@,
            reflected_fields@,
            path@,
        ) + fields_mismatches(
            fields@,
            reflected_fields@,
            if fields@.len() <= reflected_fields@.len() {
                fields@.len() as int
            } else {
                reflected_fields@.len() as int
            },
            path@,
        ),
    decreases reflected_fields,
{
    let ghost start = mviews(mismatches@);
    if fields.len() != reflected_fields.len() {
        let mut msg = String::from_str("host struct has ");
        push_decimal(&mut msg, fields.len() as u64);
        msg.append(" fields [");
        let host_names = join_field_names(fields);
        msg.append(host_names.as_str());
        msg.append("], shader struct has ");
        push_decimal(&mut msg, reflected_fields.len() as u64);
        msg.append(" fields [");
        let shader_names = join_param_names(reflected_fields);
        msg.append(shader_names.as_str());
        msg.append("]");
        push_mismatch(mismatches, path, msg);
    }
    assert(mviews(mismatches@) =~= start + field_count_mismatch(
        fields@,
        reflected_fields@,
        path@,
    ));
    let ghost counted = mviews(mismatches@);
    let n = if fields.len() <= reflected_fields.len() {
        fields.len()
    } else {
        reflected_fields.len()
    };
    let mut i: usize = 0;
    while i < n
        invariant
            0 <= i <= n,
            n <= fields@.len(),
            n <= reflected_fields@.len(),
            fields_sizes_computable(fields@, fields@.len() as int),
            mviews(mismatches@) == counted + fields_mismatches(
                fields@,
                reflected_fields@,
                i as int,
                path@,
            ),
        decreases n - i,
    {
        let field = &fields[i];
        let reflected_field = &reflected_fields[i];
        proof {
            lemma_fields_sizes_at(fields@, fields@.len() as int, i as int);
        }
        let ghost before = mviews(mismatches@);
        let mut field_path = path.clone();
        field_path.append(".");
        field_path.append(field.name);

        let reflected_name = param_name(reflected_field);
        if !text_eq(field.name, reflected_name) {
            let mut msg = String::from_str("shader field at this position is named `");
            msg.append(reflected_name);
            msg.append("`");
            push_mismatch(mismatches, &field_path, msg);
        }
        let ghost after_name = mviews(mismatches@);
        match &reflected_field.binding {
            Some(Binding::Uniform { offset, size, .. }) => {
                if field.offset != *offset {
                    let mut msg = String::from_str("host field is at offset ");
                    push_decimal(&mut msg, field.offset as u64);
                    msg.append(", shader field is at offset ");
                    push_decimal(&mut msg, *offset as u64);
                    push_mismatch(mismatches, &field_path, msg);
                }
                check_field_size(&field.ty, *size, &field_path, mismatches);
            },
            Some(_) => {
                let msg = String::from_str("shader field is not laid out in a uniform buffer");
                push_mismatch(mismatches, &field_path, msg);
            },
            None => {
                let msg = String::from_str("shader field has no binding information");
                push_mismatch(mismatches, &field_path, msg);
            },
        }
        let ghost after_binding = mviews(mismatches@);
        proof {
            assert(decreases_to!(*reflected_fields => reflected_fields@[i as int].ty));
        }
        check_type(&field.ty, &reflected_field.ty, &field_path, mismatches);
        i += 1;
        assert(mviews(mismatches@) =~= counted + fields_mismatches(
            fields@,
            reflected_fields@,
            i as int,
            path@,
        ));
    }
}

impl TypeLayout {
    /// Compares this host layout against a type slangc reflected.
    pub fn check(&self, reflected: &Type) -> (r: Result<(), Vec<LayoutMismatch>>)
        requires
            nested_sizes_computable(*self),
        ensures
            finished(r, type_mismatches(*self, *reflected, spec_root_path(*self))),
    {
        let mut mismatches = Vec::new();
        let path = root_path(self);
        check_type(self, reflected, &path, &mut mismatches);
        assert(mviews(mismatches@) =~= type_mismatches(*self, *reflected, spec_root_path(*self)));
        finish(mismatches)
    }

    /// Compares this host layout against the reflected type of a constant buffer.
    pub fn check_constant_buffer(&self, reflected: &Type) -> (r: Result<(), Vec<LayoutMismatch>>)
        requires
            size_computable(*self),
            nested_sizes_computable(*self),
        ensures
            finished(r, uniform_block_mismatches(*self, *reflected, "constant buffer"@)),
    {
        self.check_uniform_block(reflected, "constant buffer")
    }

    /// Compares a kernel's push constant layout against the push constant block the shader
    /// declares, or `None` when the shader declares none.
    pub fn check_push_constant(&self, reflected: Option<&Type>) -> (r: Result<
        (),
        Vec<LayoutMismatch>,
    >)
        requires
            size_computable(*self),
            nested_sizes_computable(*self),
        ensures
            finished(
                r,
                push_constant_mismatches(
                    *self,
                    match reflected {
                        Some(t) => Some(*t),
                        None => None,
                    },
                ),
            ),
    {
        match (self, reflected) {
            (TypeLayout::Unit, None) => Ok(()),
            (TypeLayout::Unit, Some(_)) => {
                let path = root_path(self);
                let mut mismatches = Vec::new();
                push_mismatch(
                    &mut mismatches,
                    &path,
                    String::from_str(
                        "the shader declares a push constant block, but the kernel's PushConstant type is `()`",
                    ),
                );
                assert(mviews(mismatches@) =~= push_constant_mismatches(
                    *self,
                    match reflected {
                        Some(t) => Some(*t),
                        None => None,
                    },
                ));
                Err(mismatches)
            },
            (_, None) => {
                let path = root_path(self);
                let mut mismatches = Vec::new();
                push_mismatch(
                    &mut mismatches,
                    &path,
                    String::from_str(
                        "the kernel declares a PushConstant, but the shader has no [vk::push_constant] parameter",
                    ),
                );
                assert(mviews(mismatches@) =~= push_constant_mismatches(
                    *self,
                    match reflected {
                        Some(t) => Some(*t),
                        None => None,
                    },
                ));
                Err(mismatches)
            },
            (_, Some(reflected)) => self.check_uniform_block(reflected, "push constant block"),
        }
    }

    fn check_uniform_block(&self, reflected: &Type, noun: &str) -> (r: Result<
        (),
        Vec<LayoutMismatch>,
    >)
        requires
            size_computable(*self),
            nested_sizes_computable(*self),
        ensures
            finished(r, uniform_block_mismatches(*self, *reflected, noun@)),
    {
        let path = root_path(self);
        match reflected {
            Type::ConstantBuffer { element_type, element_var_layout, .. } => {
                let mut mismatches = Vec::new();
                check_type(self, element_type, &path, &mut mismatches);
                if let Some(element_var_layout) = element_var_layout {
                    if let Binding::Uniform { size, .. } = element_var_layout.binding {
                        if self.size() > size {
                            let mut msg = String::from_str("host type is ");
                            push_decimal(&mut msg, self.size() as u64);
                            msg.append(" bytes, but the shader reserved ");
                            push_decimal(&mut msg, size as u64);
                            msg.append(" bytes for the ");
                            msg.append(noun);
                            push_mismatch(&mut mismatches, &path, msg);
                        }
                    }
                }
                assert(mviews(mismatches@) =~= uniform_block_mismatches(
                    *self,
                    *reflected,
                    noun@,
                ));
                finish(mismatches)
            },
            _ => {
                let mut msg = String::from_str("shader parameter is ");
                msg.append(reflected_kind_name(reflected));
                msg.append(", not a ");
                msg.append(noun);
                let mut mismatches = Vec::new();
                push_mismatch(&mut mismatches, &path, msg);
                assert(mviews(mismatches@) =~= uniform_block_mismatches(*self, *reflected, noun@));
                Err(mismatches)
            },
        }
    }

    /// Compares this host layout against the reflected type of a structured buffer.
    pub fn check_structured_buffer(&self, reflected: &Type) -> (r: Result<
        (),
        Vec<LayoutMismatch>,
    >)
        requires
            nested_sizes_computable(*self),
        ensures
            finished(r, structured_buffer_mismatches(*self, *reflected)),
    {
        let path = root_path(self);
        match reflected {
            Type::Resource { result_type, .. } => match result_type {
                None => {
                    let mut mismatches = Vec::new();
                    push_mismatch(
                        &mut mismatches,
                        &path,
                        String::from_str("shader parameter does not report an element type"),
                    );
                    assert(mviews(mismatches@) =~= structured_buffer_mismatches(
                        *self,
                        *reflected,
                    ));
                    Err(mismatches)
                },
                Some(result_type) => {
                    let mut mismatches = Vec::new();
                    check_type(self, result_type, &path, &mut mismatches);
                    assert(mviews(mismatches@) =~= structured_buffer_mismatches(
                        *self,
                        *reflected,
                    ));
                    finish(mismatches)
                },
            },
            _ => {
                let mut msg = String::from_str("shader parameter is ");
                msg.append(reflected_kind_name(reflected));
                msg.append(", not a structured buffer");
                let mut mismatches = Vec::new();
                push_mismatch(&mut mismatches, &path, msg);
                assert(mviews(mismatches@) =~= structured_buffer_mismatches(*self, *reflected));
                Err(mismatches)
            },
        }
    }
}

/// `Ok` when there is nothing to report, and the mismatches otherwise.
fn finish(mismatches: Vec<LayoutMismatch>) -> (r: Result<(), Vec<LayoutMismatch>>)
    ensures
        finished(r, mviews(mismatches@)),
{
    if mismatches.len() == 0 {
        Ok(())
    } else {
        Err(mismatches)
    }
}

} // verus!
