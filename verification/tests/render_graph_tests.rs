use rhi::barriers::{
    ImageMemoryBarrier, MemoryBarrier, RgStates, derive_barriers, merged_buffer_uses,
    merged_image_uses,
};
use rhi::render_graph::{
    ImageSubresourceRange, RgAccessKind, RgBufferTransition, RgContext, RgPass,
    buffer_transfer_read, buffer_transfer_write, color_attachment, constant_buffer_read,
    depth_attachment, sampled_fragment, storage_buffer_read, storage_buffer_read_write,
};
use rhi::shader_parameter::DescriptorKind;
use rhi::shader_type::AddressSlot;
use rhi::topo::topological_order;

const COMPUTE: u64 = 0x800;
const TRANSFER: u64 = 0x1000;

fn range() -> ImageSubresourceRange {
    ImageSubresourceRange {
        aspect_mask: 1,
        base_mip_level: 0,
        level_count: 1,
        base_array_layer: 0,
        layer_count: 1,
    }
}

#[test]
fn read_after_write_orders_the_reader_after_the_writer() {
    let mut g = RgContext::new();
    g.enqueue_fill(7);
    g.enqueue_pass("read", &[storage_buffer_read(7, COMPUTE)], &[]);
    assert_eq!(g.dependency_pairs(), vec![(0, 1)]);
    assert_eq!(g.topological_sort().unwrap(), vec![0, 1]);
}

#[test]
fn write_after_read_orders_the_writer_after_every_reader() {
    let mut g = RgContext::new();
    g.enqueue_pass("read a", &[storage_buffer_read(3, COMPUTE)], &[]);
    g.enqueue_pass("read b", &[constant_buffer_read(3, COMPUTE)], &[]);
    g.enqueue_fill(3);
    let mut deps = g.dependency_pairs();
    deps.sort();
    assert_eq!(deps, vec![(0, 2), (1, 2)]);
}

#[test]
fn reads_of_the_same_buffer_are_not_ordered() {
    let mut g = RgContext::new();
    g.enqueue_pass("read a", &[storage_buffer_read(3, COMPUTE)], &[]);
    g.enqueue_pass("read b", &[storage_buffer_read(3, COMPUTE)], &[]);
    assert!(g.dependency_pairs().is_empty());
}

#[test]
fn write_after_write_orders_the_writers() {
    let mut g = RgContext::new();
    g.enqueue_fill(9);
    g.enqueue_fill(9);
    assert_eq!(g.dependency_pairs(), vec![(0, 1)]);
}

#[test]
fn a_pass_never_waits_for_itself() {
    let mut g = RgContext::new();
    g.enqueue_pass(
        "twice",
        &[storage_buffer_read_write(4, COMPUTE), storage_buffer_read_write(4, COMPUTE)],
        &[],
    );
    assert!(g.dependency_pairs().is_empty());
}

#[test]
fn an_intervening_write_hides_older_readers() {
    let mut g = RgContext::new();
    g.enqueue_pass("read", &[storage_buffer_read(1, COMPUTE)], &[]);
    g.enqueue_fill(1);
    g.enqueue_fill(1);
    let mut deps = g.dependency_pairs();
    deps.sort();
    // The second fill waits for the first only: the read is already behind the first fill.
    assert_eq!(deps, vec![(0, 1), (1, 2)]);
}

#[test]
fn topological_sort_is_breadth_first_by_index() {
    let mut g = RgContext::new();
    g.enqueue_fill(10); // 0 writes A
    g.enqueue_fill(20); // 1 writes B
    g.enqueue_pass("read B", &[storage_buffer_read(20, COMPUTE)], &[]); // 2 after 1
    g.enqueue_pass("read A", &[storage_buffer_read(10, COMPUTE)], &[]); // 3 after 0
    assert_eq!(g.topological_sort().unwrap(), vec![0, 1, 3, 2]);
}

#[test]
fn topological_order_reports_a_cycle() {
    let r = topological_order(3, &[(0, 1), (1, 2), (2, 0)]);
    assert_eq!(r, Err("cycle detected in render graph".to_string()));
    let r = topological_order(2, &[(1, 1)]);
    assert!(r.is_err());
    assert_eq!(topological_order(3, &[(2, 0), (2, 1)]).unwrap(), vec![2, 0, 1]);
}

#[test]
fn transition_constructors_use_the_vulkan_flags() {
    assert_eq!(
        buffer_transfer_read(5),
        RgBufferTransition { buffer: 5, kind: RgAccessKind::Read, stage: 0x1000, access: 0x800 }
    );
    assert_eq!(buffer_transfer_write(5).access, 0x1000);
    assert_eq!(storage_buffer_read_write(5, COMPUTE).access, 0x60);
    let d = depth_attachment(8, range());
    assert_eq!(d.stage, 0x300);
    assert_eq!(d.access, 0x400);
    assert_eq!(d.layout, 3);
    let c = color_attachment(8, range());
    assert_eq!((c.stage, c.access, c.layout), (0x400, 0x100, 2));
    let s = sampled_fragment(8, range());
    assert_eq!((s.kind, s.stage, s.access, s.layout), (RgAccessKind::Read, 0x80, 0x20, 5));
}

#[test]
fn merged_uses_combine_stages_and_accesses_per_resource() {
    let pass = RgPass {
        name: "p".to_string(),
        buffers: vec![
            storage_buffer_read(5, COMPUTE),
            buffer_transfer_write(3),
            storage_buffer_read_write(5, 0x80),
        ],
        images: vec![sampled_fragment(9, range()), color_attachment(9, range())],
    };
    let m = merged_buffer_uses(&pass);
    assert_eq!(m.len(), 2);
    assert_eq!((m[0].buffer, m[0].stage, m[0].access), (3, TRANSFER, 0x1000));
    assert_eq!((m[1].buffer, m[1].stage, m[1].access), (5, 0x880, 0x60));
    let im = merged_image_uses(&pass);
    assert_eq!(im.len(), 1);
    assert_eq!((im[0].stage, im[0].access, im[0].layout), (0x480, 0x120, 2));
}

#[test]
fn barriers_follow_the_previous_use() {
    let mut states = RgStates::new();
    let fill = RgPass { name: "fill".to_string(), buffers: vec![buffer_transfer_write(7)], images: vec![] };
    let b = derive_barriers(&mut states, &fill);
    assert_eq!(
        b.memory_barriers,
        vec![MemoryBarrier { src_stage: 1, src_access: 0, dst_stage: TRANSFER, dst_access: 0x1000 }]
    );
    let read = RgPass { name: "read".to_string(), buffers: vec![storage_buffer_read(7, COMPUTE)], images: vec![] };
    let b = derive_barriers(&mut states, &read);
    assert_eq!(
        b.memory_barriers,
        vec![MemoryBarrier { src_stage: TRANSFER, src_access: 0x1000, dst_stage: COMPUTE, dst_access: 0x20 }]
    );
    // A read after a read needs nothing.
    let b = derive_barriers(&mut states, &read);
    assert!(b.memory_barriers.is_empty());
}

#[test]
fn execute_plan_ends_with_the_present_transition() {
    let mut g = RgContext::new();
    g.enqueue_pass("draw", &[], &[color_attachment(42, range())]);
    let plan = g.execute_plan(Some((42, range()))).unwrap();
    assert_eq!(plan.steps.len(), 1);
    assert_eq!(plan.steps[0].pass, 0);
    assert_eq!(
        plan.steps[0].barriers.image_barriers,
        vec![ImageMemoryBarrier {
            src_stage: 1,
            src_access: 0,
            dst_stage: 0x400,
            dst_access: 0x100,
            old_layout: 0,
            new_layout: 2,
            image: 42,
            subresource_range: range(),
        }]
    );
    assert_eq!(
        plan.present_barrier,
        Some(ImageMemoryBarrier {
            src_stage: 0x400,
            src_access: 0x100,
            dst_stage: 0x2000,
            dst_access: 0,
            old_layout: 2,
            new_layout: 1000001002,
            image: 42,
            subresource_range: range(),
        })
    );
    let plan = g.execute_plan(None).unwrap();
    assert!(plan.present_barrier.is_none());
}

#[test]
fn dispatch_declares_parameters_then_address_slots() {
    let mut g = RgContext::new();
    let slots = [AddressSlot { offset: 0, writable: true }, AddressSlot { offset: 8, writable: false }];
    g.enqueue_dispatch(
        "kernel",
        &[(DescriptorKind::ConstantBuffer, 1), (DescriptorKind::RWStructuredBuffer, 2)],
        &slots,
        &[3, 4],
    );
    let p = g.pass(0);
    assert_eq!(p.name, "kernel");
    assert_eq!(
        p.buffers,
        vec![
            constant_buffer_read(1, COMPUTE),
            storage_buffer_read_write(2, COMPUTE),
            storage_buffer_read_write(3, COMPUTE),
            storage_buffer_read(4, COMPUTE),
        ]
    );
}

#[test]
fn copy_reads_the_source_and_writes_the_destination() {
    let mut g = RgContext::new();
    g.enqueue_copy("enqueue_copy_buffer", 1, 2);
    g.enqueue_pass("read", &[storage_buffer_read(2, COMPUTE)], &[]);
    g.enqueue_pass("write src", &[storage_buffer_read_write(1, COMPUTE)], &[]);
    assert_eq!(g.pass(0).buffers, vec![buffer_transfer_read(1), buffer_transfer_write(2)]);
    let mut deps = g.dependency_pairs();
    deps.sort();
    assert_eq!(deps, vec![(0, 1), (0, 2)]);
}
