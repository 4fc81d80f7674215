//! The reflection data slangc writes for a compiled shader, as plain values.
use vstd::prelude::*;

verus! {

/// Everything slangc reports about one compiled shader.
pub struct ShaderReflection {
    pub parameters: Vec<Parameter>,
    pub entry_points: Vec<EntryPoint>,
    pub bindless_space_index: u32,
}

/// A shader parameter, or a field of a reflected struct.
pub struct Parameter {
    pub name: Option<String>,
    pub ty: Type,
    pub binding: Option<Binding>,
    pub semantic_name: Option<String>,
    pub stage: Option<String>,
}

/// One entry point of a shader.
pub struct EntryPoint {
    pub name: String,
    pub stage: String,
    pub parameters: Vec<Parameter>,
    pub result: Option<Parameter>,
    pub thread_group_size: Option<[u32; 3]>,
    pub bindings: Vec<EntryPointBinding>,
}

/// A binding an entry point uses.
pub struct EntryPointBinding {
    pub name: String,
    pub binding: Binding,
}

/// Where a parameter lives.
#[derive(Clone, Copy, Debug, PartialEq, Eq, Structural)]
pub enum Binding {
    DescriptorTableSlot { index: u32 },
    PushConstantBuffer { index: u32 },
    Uniform { offset: u32, size: u32, element_stride: u32 },
    VaryingInput { index: u32 },
    VaryingOutput { index: u32 },
}

/// The Slang type of a parameter or field, which themselves can be composite types (structs,
/// constant buffers, resources, vectors, matrices).
pub enum Type {
    Struct { name: String, fields: Vec<Parameter> },
    ConstantBuffer {
        element_type: Box<Type>,
        container_var_layout: Option<ContainerVarLayout>,
        element_var_layout: Option<ElementVarLayout>,
    },
    Resource { base_shape: BaseShape, access: Option<Access>, result_type: Option<Box<Type>> },
    Scalar { scalar_type: String },
    Vector { element_count: u32, element_type: Box<Type> },
    Array { element_count: u32, element_type: Box<Type>, uniform_stride: u32 },
    Matrix { row_count: u32, column_count: u32, element_type: Box<Type> },
    Pointer { value_type: String },
    SamplerState,
}

/// The shape of a resource.
#[derive(Clone, Copy, Debug, PartialEq, Eq, Structural)]
pub enum BaseShape {
    StructuredBuffer,
}

/// The access a resource grants.
#[derive(Clone, Copy, Debug, PartialEq, Eq, Structural)]
pub enum Access {
    ReadWrite,
}

/// The binding of a constant buffer's container.
pub struct ContainerVarLayout {
    pub binding: Binding,
}

/// The type and binding of a constant buffer's element.
pub struct ElementVarLayout {
    pub ty: Box<Type>,
    pub binding: Binding,
}

} // verus!
