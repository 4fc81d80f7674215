//! The push constants and specialization constants of the puzzle kernels, laid out as the
//! shaders declare them.
use vstd::prelude::*;
use crate::shader_type::{FieldLayout, ScalarKind, TypeLayout};

verus! {

/// Whether `t` is a 4-byte struct named `name` whose one field is `block_dim_x: u32` at
/// offset 0.
pub open spec fn is_block_dim_struct(t: TypeLayout, name: Seq<char>) -> bool {
    match t {
        TypeLayout::Struct { name: n, size, fields } => {
            &&& n@ == name
            &&& size == 4
            &&& fields@.len() == 1
            &&& fields@[0].name@ == "block_dim_x"@
            &&& fields@[0].offset == 0
            &&& fields@[0].ty == TypeLayout::Scalar(ScalarKind::UInt32)
        },
        _ => false,
    }
}

/// The layout of a `#[repr(C)]` struct holding only `block_dim_x: u32`.
fn block_dim_struct(name: &'static str) -> (r: TypeLayout)
    ensures
        is_block_dim_struct(r, name@),
{
    let mut fields: Vec<FieldLayout> = Vec::new();
    fields.push(
        FieldLayout { name: "block_dim_x", offset: 0, ty: TypeLayout::Scalar(ScalarKind::UInt32) },
    );
    TypeLayout::Struct { name, size: 4, fields }
}

/// The specialization constant of the element-wise add kernel.
#[derive(Debug, Clone, Copy, PartialEq, Eq, Structural)]
pub struct AddSpec {
    pub block_dim_x: u32,
}

impl AddSpec {
    /// How the shader sees this struct.
    pub fn type_layout() -> (r: TypeLayout)
        ensures
            is_block_dim_struct(r, "AddSpec"@),
    {
        block_dim_struct("AddSpec")
    }
}

/// The specialization constant of the guarded add-ten kernel.
#[derive(Debug, Clone, Copy, PartialEq, Eq, Structural)]
pub struct Add10GuardSpec {
    pub block_dim_x: u32,
}

impl Add10GuardSpec {
    /// How the shader sees this struct.
    pub fn type_layout() -> (r: TypeLayout)
        ensures
            is_block_dim_struct(r, "Add10GuardSpec"@),
    {
        block_dim_struct("Add10GuardSpec")
    }
}

/// Whether `f` is the field `name` at `offset` holding the address of a `pointee`, which the
/// shader may write when `writable`.
pub open spec fn is_address_field(
    f: FieldLayout,
    name: Seq<char>,
    offset: u32,
    pointee: TypeLayout,
    writable: bool,
) -> bool {
    &&& f.name@ == name
    &&& f.offset == offset
    &&& f.ty == TypeLayout::DeviceAddress { pointee: Box::new(pointee), writable }
}

/// The field `name` at `offset`, holding the address of a `pointee`.
fn address_field(name: &'static str, offset: u32, pointee: TypeLayout, writable: bool) -> (r: FieldLayout)
    ensures
        is_address_field(r, name@, offset, pointee, writable),
{
    FieldLayout { name, offset, ty: TypeLayout::DeviceAddress { pointee: Box::new(pointee), writable } }
}

/// The push constant of the element-wise add kernel: the addresses of the output and of the
/// two `f32` inputs.
#[derive(Debug, Clone, Copy, PartialEq, Eq, Structural)]
pub struct AddPush {
    pub output: u64,
    pub a: u64,
    pub b: u64,
}

impl AddPush {
    /// How the shader sees this struct: three `f32` addresses, the first one written.
    pub fn type_layout() -> (r: TypeLayout)
        ensures
            match r {
                TypeLayout::Struct { name, size, fields } => {
                    &&& name@ == "AddPush"@
                    &&& size == 24
                    &&& fields@.len() == 3
                    &&& is_address_field(fields@[0], "output"@, 0, TypeLayout::Scalar(ScalarKind::Float32), true)
                    &&& is_address_field(fields@[1], "a"@, 8, TypeLayout::Scalar(ScalarKind::Float32), false)
                    &&& is_address_field(fields@[2], "b"@, 16, TypeLayout::Scalar(ScalarKind::Float32), false)
                },
                _ => false,
            },
    {
        let mut fields: Vec<FieldLayout> = Vec::new();
        fields.push(address_field("output", 0, TypeLayout::Scalar(ScalarKind::Float32), true));
        fields.push(address_field("a", 8, TypeLayout::Scalar(ScalarKind::Float32), false));
        fields.push(address_field("b", 16, TypeLayout::Scalar(ScalarKind::Float32), false));
        TypeLayout::Struct { name: "AddPush", size: 24, fields }
    }
}

/// The push constant of the guarded add-ten kernel: the addresses of the output and of the
/// `f32` input, and the number of elements.
#[derive(Debug, Clone, Copy, PartialEq, Eq, Structural)]
pub struct Add10GuardPush {
    pub output: u64,
    pub a: u64,
    pub len: u64,
}

impl Add10GuardPush {
    /// How the shader sees this struct: two `f32` addresses, the first one written, then a
    /// 64-bit length.
    pub fn type_layout() -> (r: TypeLayout)
        ensures
            match r {
                TypeLayout::Struct { name, size, fields } => {
                    &&& name@ == "Add10GuardPush"@
                    &&& size == 24
                    &&& fields@.len() == 3
                    &&& is_address_field(fields@[0], "output"@, 0, TypeLayout::Scalar(ScalarKind::Float32), true)
                    &&& is_address_field(fields@[1], "a"@, 8, TypeLayout::Scalar(ScalarKind::Float32), false)
                    &&& fields@[2].name@ == "len"@
                    &&& fields@[2].offset == 16
                    &&& fields@[2].ty == TypeLayout::Scalar(ScalarKind::UInt64)
                },
                _ => false,
            },
    {
        let mut fields: Vec<FieldLayout> = Vec::new();
        fields.push(address_field("output", 0, TypeLayout::Scalar(ScalarKind::Float32), true));
        fields.push(address_field("a", 8, TypeLayout::Scalar(ScalarKind::Float32), false));
        fields.push(FieldLayout { name: "len", offset: 16, ty: TypeLayout::Scalar(ScalarKind::UInt64) });
        TypeLayout::Struct { name: "Add10GuardPush", size: 24, fields }
    }
}

/// Whether `t` is an empty struct named `name`, the layout of a compile-time dimension.
pub open spec fn is_const_dim(t: TypeLayout) -> bool {
    match t {
        TypeLayout::Struct { name, size, fields } => name@ == "Const"@ && size == 0 && fields@.len() == 0,
        _ => false,
    }
}

/// Whether `t` is the layout of a rank-2 shape of compile-time dimensions: a zero-sized
/// struct with the two dimensions `d0` and `d1`.
pub open spec fn is_const_shape2(t: TypeLayout) -> bool {
    match t {
        TypeLayout::Struct { name, size, fields } => {
            &&& name@ == "Shape2"@
            &&& size == 0
            &&& fields@.len() == 2
            &&& fields@[0].name@ == "d0"@ && fields@[0].offset == 0 && is_const_dim(fields@[0].ty)
            &&& fields@[1].name@ == "d1"@ && fields@[1].offset == 0 && is_const_dim(fields@[1].ty)
        },
        _ => false,
    }
}

/// Whether `t` is the layout of a layout whose shape and stride are both known at compile
/// time and of rank 2: a zero-sized struct with the fields `shape` and `stride`.
pub open spec fn is_const_layout2(t: TypeLayout) -> bool {
    match t {
        TypeLayout::Struct { name, size, fields } => {
            &&& name@ == "Layout"@
            &&& size == 0
            &&& fields@.len() == 2
            &&& fields@[0].name@ == "shape"@ && fields@[0].offset == 0 && is_const_shape2(fields@[0].ty)
            &&& fields@[1].name@ == "stride"@ && fields@[1].offset == 0 && is_const_shape2(fields@[1].ty)
        },
        _ => false,
    }
}

/// Whether `t` is the layout of a device tensor named `name` over a compile-time rank-2
/// layout: the address of its `element` storage, then its zero-sized layout.
pub open spec fn is_const_tensor2(t: TypeLayout, name: Seq<char>, element: ScalarKind, writable: bool) -> bool {
    match t {
        TypeLayout::Struct { name: n, size, fields } => {
            &&& n@ == name
            &&& size == 8
            &&& fields@.len() == 2
            &&& is_address_field(fields@[0], "storage"@, 0, TypeLayout::Scalar(element), writable)
            &&& fields@[1].name@ == "layout"@ && fields@[1].offset == 8 && is_const_layout2(fields@[1].ty)
        },
        _ => false,
    }
}

fn const_dim() -> (r: TypeLayout)
    ensures
        is_const_dim(r),
{
    TypeLayout::Struct { name: "Const", size: 0, fields: Vec::new() }
}

fn const_shape2() -> (r: TypeLayout)
    ensures
        is_const_shape2(r),
{
    let mut fields: Vec<FieldLayout> = Vec::new();
    fields.push(FieldLayout { name: "d0", offset: 0, ty: const_dim() });
    fields.push(FieldLayout { name: "d1", offset: 0, ty: const_dim() });
    TypeLayout::Struct { name: "Shape2", size: 0, fields }
}

fn const_tensor2(name: &'static str, element: ScalarKind, writable: bool) -> (r: TypeLayout)
    ensures
        is_const_tensor2(r, name@, element, writable),
{
    let mut layout_fields: Vec<FieldLayout> = Vec::new();
    layout_fields.push(FieldLayout { name: "shape", offset: 0, ty: const_shape2() });
    layout_fields.push(FieldLayout { name: "stride", offset: 0, ty: const_shape2() });
    let layout = TypeLayout::Struct { name: "Layout", size: 0, fields: layout_fields };
    let mut fields: Vec<FieldLayout> = Vec::new();
    fields.push(address_field("storage", 0, TypeLayout::Scalar(element), writable));
    fields.push(FieldLayout { name: "layout", offset: 8, ty: layout });
    TypeLayout::Struct { name, size: 8, fields }
}

/// The push constant of the 2 x 2 add-ten kernel: the output tensor and the input tensor,
/// each the address of its storage under a row-major layout known at compile time.
#[derive(Debug, Clone, Copy, PartialEq, Eq, Structural)]
pub struct Add102dPush {
    pub output: u64,
    pub a: u64,
}

impl Add102dPush {
    /// How the shader sees this struct for elements of kind `element`: a writable tensor,
    /// then a read-only one, each eight bytes.
    pub fn type_layout(element: ScalarKind) -> (r: TypeLayout)
        ensures
            match r {
                TypeLayout::Struct { name, size, fields } => {
                    &&& name@ == "Add102dPush"@
                    &&& size == 16
                    &&& fields@.len() == 2
                    &&& fields@[0].name@ == "output"@ && fields@[0].offset == 0
                    &&& is_const_tensor2(fields@[0].ty, "RWDeviceTensor"@, element, true)
                    &&& fields@[1].name@ == "a"@ && fields@[1].offset == 8
                    &&& is_const_tensor2(fields@[1].ty, "DeviceTensor"@, element, false)
                },
                _ => false,
            },
    {
        let mut fields: Vec<FieldLayout> = Vec::new();
        fields.push(FieldLayout { name: "output", offset: 0, ty: const_tensor2("RWDeviceTensor", element, true) });
        fields.push(FieldLayout { name: "a", offset: 8, ty: const_tensor2("DeviceTensor", element, false) });
        TypeLayout::Struct { name: "Add102dPush", size: 16, fields }
    }
}

} // verus!
