//! Layouts for tiled tensors, and the host-side bookkeeping of a small compute RHI.
use vstd::prelude::*;

pub mod dim;
pub mod seqmath;
pub mod text;
pub mod shape;
pub mod layout;
pub mod major;
pub mod tile_tensor;
pub mod layout_laws;
pub mod shader_reflection;
pub mod shader_type;
pub mod arena;
pub mod permutation;
pub mod vk_flags;
pub mod render_graph;
pub mod topo;
pub mod barriers;
pub mod colmap;
pub mod vector;
pub mod shader_parameter;
pub mod kernel_check;
pub mod dispatch;
pub mod descriptor_pool;
pub mod timeline;
pub mod surface;
pub mod puzzles;
pub mod frame_loop;

pub use dim::{Const, Dim, Extent, Prod, all_static, static_cosize, static_product};
pub use layout::Layout;
pub use major::{col_major, row_major};
pub use shape::{Extents, Shape};
pub use tile_tensor::TileTensor;
pub use vector::{Int2, Int3, Int4, UInt2, UInt3, UInt4};

verus! {

/// Divide-and-round-up helper for launching thread groups.
pub fn div_round_up(a: usize, b: usize) -> (r: usize)
    requires
        b > 0,
        a + b <= usize::MAX,
    ensures
        r == (a + b - 1) / (b as int),
{
    (a + b - 1) / b
}

/// The number of work groups to launch for a 1D kernel over `numel` items with the default
/// work group size of 64 (the count is truncated to 32 bits, as a cast does).
pub fn grid_dim_1d(numel: usize) -> (r: UInt3)
    requires
        numel + 64 <= usize::MAX,
    ensures
        r.spec_elements() == seq![((numel + 63) / 64) as u32, 1u32, 1u32],
{
    let grid_dim_x = div_round_up(numel, 64) as u32;
    let r = UInt3::new(grid_dim_x, 1, 1);
    assert(r.spec_elements() =~= seq![((numel + 63) / 64) as u32, 1u32, 1u32]);
    r
}

} // verus!
