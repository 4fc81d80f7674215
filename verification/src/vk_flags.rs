//! The raw values of the Vulkan pipeline-stage, access and image-layout flags that the render
//! graph works with. Stages and accesses are 64-bit masks (`VkPipelineStageFlags2`,
//! `VkAccessFlags2`); a layout and a descriptor type are signed enumerants (`VkImageLayout`,
//! `VkDescriptorType`).
use vstd::prelude::*;

verus! {

pub const PIPELINE_STAGE_NONE: u64 = 0;

pub const PIPELINE_STAGE_TOP_OF_PIPE: u64 = 0x1;

pub const PIPELINE_STAGE_FRAGMENT_SHADER: u64 = 0x80;

pub const PIPELINE_STAGE_EARLY_FRAGMENT_TESTS: u64 = 0x100;

pub const PIPELINE_STAGE_LATE_FRAGMENT_TESTS: u64 = 0x200;

pub const PIPELINE_STAGE_COLOR_ATTACHMENT_OUTPUT: u64 = 0x400;

pub const PIPELINE_STAGE_COMPUTE_SHADER: u64 = 0x800;

pub const PIPELINE_STAGE_TRANSFER: u64 = 0x1000;

pub const PIPELINE_STAGE_BOTTOM_OF_PIPE: u64 = 0x2000;

pub const ACCESS_NONE: u64 = 0;

pub const ACCESS_SHADER_READ: u64 = 0x20;

pub const ACCESS_SHADER_WRITE: u64 = 0x40;

pub const ACCESS_COLOR_ATTACHMENT_WRITE: u64 = 0x100;

pub const ACCESS_DEPTH_STENCIL_ATTACHMENT_WRITE: u64 = 0x400;

pub const ACCESS_TRANSFER_READ: u64 = 0x800;

pub const ACCESS_TRANSFER_WRITE: u64 = 0x1000;

pub const ACCESS_MEMORY_WRITE: u64 = 0x10000;

/// Every access bit that writes memory; an access with any of them set counts as a write.
pub const ACCESS_WRITE_MASK: u64 = 0x11540;

pub const DESCRIPTOR_TYPE_UNIFORM_BUFFER: i32 = 6;

pub const DESCRIPTOR_TYPE_STORAGE_BUFFER: i32 = 7;

pub const IMAGE_LAYOUT_UNDEFINED: i32 = 0;

pub const IMAGE_LAYOUT_COLOR_ATTACHMENT_OPTIMAL: i32 = 2;

pub const IMAGE_LAYOUT_DEPTH_STENCIL_ATTACHMENT_OPTIMAL: i32 = 3;

pub const IMAGE_LAYOUT_SHADER_READ_ONLY_OPTIMAL: i32 = 5;

pub const IMAGE_LAYOUT_PRESENT_SRC: i32 = 1000001002;

/// The write mask is the union of the write access bits.
pub proof fn lemma_write_mask()
    ensures
        ACCESS_WRITE_MASK == ACCESS_SHADER_WRITE | ACCESS_COLOR_ATTACHMENT_WRITE
            | ACCESS_DEPTH_STENCIL_ATTACHMENT_WRITE | ACCESS_TRANSFER_WRITE | ACCESS_MEMORY_WRITE,
{
    assert(0x11540u64 == 0x40u64 | 0x100u64 | 0x400u64 | 0x1000u64 | 0x10000u64) by (bit_vector);
}

} // verus!
