//! The descriptors a kernel binds, as the host declares them.
use vstd::prelude::*;
use crate::shader_type::TypeLayout;
use crate::vk_flags::{DESCRIPTOR_TYPE_STORAGE_BUFFER, DESCRIPTOR_TYPE_UNIFORM_BUFFER};

verus! {

/// The kind of buffer a kernel parameter is.
#[derive(Debug, Clone, Copy, PartialEq, Eq, Structural)]
pub enum DescriptorKind {
    ConstantBuffer,
    StructuredBuffer,
    RWStructuredBuffer,
}

/// The name of a kind, as written in source.
pub open spec fn kind_text(k: DescriptorKind) -> Seq<char> {
    match k {
        DescriptorKind::ConstantBuffer => "ConstantBuffer"@,
        DescriptorKind::StructuredBuffer => "StructuredBuffer"@,
        DescriptorKind::RWStructuredBuffer => "RWStructuredBuffer"@,
    }
}

/// The Vulkan descriptor type a kind binds as: a uniform buffer for a constant buffer, a
/// storage buffer otherwise.
pub open spec fn descriptor_type_of(k: DescriptorKind) -> i32 {
    match k {
        DescriptorKind::ConstantBuffer => DESCRIPTOR_TYPE_UNIFORM_BUFFER,
        _ => DESCRIPTOR_TYPE_STORAGE_BUFFER,
    }
}

impl DescriptorKind {
    /// Whether this kind is bound as a buffer (every kind is).
    pub fn is_buffer(&self) -> (r: bool)
        ensures
            r,
    {
        match self {
            DescriptorKind::ConstantBuffer
            | DescriptorKind::StructuredBuffer
            | DescriptorKind::RWStructuredBuffer => true,
        }
    }

    /// The raw `VkDescriptorType` this kind binds as.
    pub fn descriptor_type(&self) -> (r: i32)
        ensures
            r == descriptor_type_of(*self),
    {
        match self {
            DescriptorKind::ConstantBuffer => DESCRIPTOR_TYPE_UNIFORM_BUFFER,
            DescriptorKind::StructuredBuffer | DescriptorKind::RWStructuredBuffer => {
                DESCRIPTOR_TYPE_STORAGE_BUFFER
            },
        }
    }

    /// The name of this kind, as written in source.
    pub fn name(&self) -> (r: &'static str)
        ensures
            r@ == kind_text(*self),
    {
        match self {
            DescriptorKind::ConstantBuffer => "ConstantBuffer",
            DescriptorKind::StructuredBuffer => "StructuredBuffer",
            DescriptorKind::RWStructuredBuffer => "RWStructuredBuffer",
        }
    }
}

/// A kernel parameter as the host declares it: its name, its kind and, when known, the
/// layout of its element type.
pub struct ShaderParameterType {
    pub name: &'static str,
    pub kind: DescriptorKind,
    pub layout: Option<TypeLayout>,
}

/// A kernel parameter bound to a buffer, by the buffer's handle.
pub struct ShaderParameter {
    pub name: &'static str,
    pub kind: DescriptorKind,
    pub handle: u64,
}

} // verus!
