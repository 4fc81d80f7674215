use rhi::puzzles::{Add102dPush, Add10GuardPush, AddPush};
use rhi::permutation::ShaderPermutationMatrix;
use rhi::dispatch::{SpecializationMapEntry, specialization_map_entries};
use rhi::puzzles::{Add10GuardSpec, AddSpec};
use rhi::shader_type::{FieldLayout, ScalarKind, TypeLayout};
use rhi::arena::{Arena, ResourceId};
use rhi::descriptor_pool::{DescriptorSetAllocator, MAX_SETS};
use rhi::dispatch::{address_slot_handles, address_transitions, descriptor_bindings, pad_push_constant, patch_addresses};
use rhi::permutation::{
    ShaderDefine, ShaderPermutationBool, ShaderPermutationDimension, flatten_values,
    permutation_count, values_of_flat_index,
};
use rhi::render_graph::{storage_buffer_read, storage_buffer_read_write};
use rhi::shader_parameter::DescriptorKind;
use rhi::shader_type::AddressSlot;
use rhi::timeline::{FrameRing, QueueTimeline, RetireQueue, SwapchainImage};
use rhi::{UInt3, div_round_up, grid_dim_1d};

#[test]
fn arena_ids_go_stale_when_their_value_is_removed() {
    let mut a: Arena<&str> = Arena::new();
    let x = a.insert("x");
    let y = a.insert("y");
    assert_eq!(a.get(&x), Some(&"x"));
    assert_eq!(a.remove(&x), Some("x"));
    assert_eq!(a.get(&x), None);
    assert_eq!(a.remove(&x), None);
    // The freed slot is reused under a new generation.
    let z = a.insert("z");
    assert_eq!(z.index(), x.index());
    assert_eq!(z.generation(), x.generation() + 1);
    assert_eq!(a.get(&x), None);
    assert_eq!(a.get(&z), Some(&"z"));
    assert_eq!(a.get(&y), Some(&"y"));
    assert_eq!(a.capacity(), 2);
}

#[test]
fn packed_ids_round_trip() {
    let mut a: Arena<u8> = Arena::new();
    let _ = a.insert(1);
    let id = a.insert(2);
    let raw = id.to_u64();
    assert_eq!(raw, 1);
    let back: ResourceId<u8> = ResourceId::from_u64(raw);
    assert!(back.same_as(&id));
    let odd: ResourceId<u8> = ResourceId::from_u64(0x0000_0003_0000_0007);
    assert_eq!((odd.index(), odd.generation()), (7, 3));
    assert_eq!(odd.to_u64(), 0x0000_0003_0000_0007);
}

struct UseFastPath;
impl ShaderDefine for UseFastPath {
    const NAME: &'static str = "USE_FAST_PATH";
}

#[test]
fn bool_dimension_numbers_its_values() {
    let mut on = ShaderPermutationBool::<UseFastPath>::new(true);
    assert_eq!(on.value(), 1);
    assert_eq!(on.define_value(), "1");
    on.set(false);
    assert_eq!(on.value(), 0);
    assert_eq!(on.define_value(), "0");
    assert_eq!(<ShaderPermutationBool<UseFastPath> as ShaderPermutationDimension>::len(), 2);
    assert_eq!(<ShaderPermutationBool<UseFastPath> as ShaderPermutationDimension>::name(), "USE_FAST_PATH");
}

#[test]
fn flat_indices_are_mixed_radix_first_dimension_fastest() {
    let lens = [2, 3, 4];
    assert_eq!(permutation_count(&lens), 24);
    assert_eq!(flatten_values(&[1, 2, 3], &lens), 1 + 2 * 2 + 3 * 6);
    assert_eq!(values_of_flat_index(23, &lens), vec![1, 2, 3]);
    for i in 0..24 {
        let v = values_of_flat_index(i, &lens);
        assert_eq!(flatten_values(&v, &lens), i);
    }
}

#[test]
fn grid_dimensions_round_up_to_whole_groups() {
    assert_eq!(div_round_up(10, 4), 3);
    assert_eq!(div_round_up(8, 4), 2);
    assert_eq!(grid_dim_1d(0).as_array(), [0, 1, 1]);
    assert_eq!(grid_dim_1d(64).as_array(), [1, 1, 1]);
    assert_eq!(grid_dim_1d(65).as_array(), [2, 1, 1]);
    let v = UInt3::new(4, 5, 6);
    assert_eq!((v.x(), v.y(), v.z()), (4, 5, 6));
    assert_eq!(UInt3::splat(9).as_array(), [9, 9, 9]);
}

#[test]
fn descriptor_kinds_bind_as_buffers() {
    assert!(DescriptorKind::ConstantBuffer.is_buffer());
    assert_eq!(DescriptorKind::ConstantBuffer.descriptor_type(), 6);
    assert_eq!(DescriptorKind::RWStructuredBuffer.descriptor_type(), 7);
    assert_eq!(DescriptorKind::StructuredBuffer.name(), "StructuredBuffer");
    assert_eq!(
        descriptor_bindings(&[DescriptorKind::StructuredBuffer, DescriptorKind::ConstantBuffer]),
        vec![(0, 7), (1, 6)]
    );
}

#[test]
fn push_constants_pad_to_words() {
    assert_eq!(pad_push_constant(&[1, 2, 3, 4, 5]), vec![1, 2, 3, 4, 5, 0, 0, 0]);
    assert_eq!(pad_push_constant(&[1, 2, 3, 4]), vec![1, 2, 3, 4]);
    assert_eq!(pad_push_constant(&[]), Vec::<u8>::new());
}

#[test]
fn address_slots_carry_handles_and_receive_addresses() {
    let mut block = vec![0u8; 20];
    block[4..12].copy_from_slice(&0x1122_3344_5566_7788u64.to_ne_bytes());
    let slots = [AddressSlot { offset: 4, writable: true }];
    assert_eq!(address_slot_handles(&slots, &block), vec![0x1122_3344_5566_7788]);
    let patched = patch_addresses(&block, &slots, &[0xdead_beef]);
    assert_eq!(&patched[4..12], &0xdead_beefu64.to_ne_bytes());
    assert_eq!(&patched[..4], &block[..4]);
    assert_eq!(&patched[12..], &block[12..]);
    assert_eq!(
        address_transitions(&[AddressSlot { offset: 0, writable: false }, slots[0]], &[5, 6], 0x800),
        vec![storage_buffer_read(5, 0x800), storage_buffer_read_write(6, 0x800)]
    );
}

#[test]
fn descriptor_pools_account_for_their_sets() {
    let mut alloc = DescriptorSetAllocator::make(&[(7, 1), (6, 1), (7, 2)]);
    assert_eq!(alloc.pool_sizes(), vec![(7, 3), (6, 1)]);
    assert!(alloc.has_no_pools());
    alloc.add_pool(100);
    assert_eq!(alloc.sets_remaining(100), Some(MAX_SETS));

    assert_eq!(alloc.lookup(&[1, 2], 5, 1_000), None);
    alloc.record_allocation(&[1, 2], 555, 100, 5, 1_000);
    assert_eq!(alloc.sets_remaining(100), Some(MAX_SETS - 1));
    assert_eq!(alloc.lookup(&[1, 2], 6, 1_500), Some(555));

    // Still in use by the queue, or too recent: nothing is freed.
    let (freed, released) = alloc.garbage_collection(5, 3_000);
    assert!(freed.is_empty() && released.is_empty());
    let (freed, released) = alloc.garbage_collection(6, 2_000);
    assert!(freed.is_empty() && released.is_empty());
    // Done with and old enough: the set is freed and its pool released.
    let (freed, released) = alloc.garbage_collection(6, 2_500);
    assert_eq!(freed.len(), 1);
    assert_eq!(freed[0].handle, 555);
    assert_eq!(released, vec![100]);
    assert!(alloc.has_no_pools());
    assert_eq!(alloc.lookup(&[1, 2], 7, 3_000), None);
}

#[test]
fn timelines_wait_for_the_last_value_and_signal_the_next() {
    let mut t = QueueTimeline::new(77);
    assert_eq!(t.submit_after_acquire(), (None, 1));
    assert_eq!(t.submit(), (1, 2));
    assert_eq!(t.submit_after_acquire(), (Some(2), 3));
    assert_eq!(t.value, 3);
}

#[test]
fn retired_objects_are_released_in_order_once_completed() {
    let mut q = RetireQueue::new();
    q.retire(1, "a");
    q.retire(3, "b");
    q.retire(2, "c");
    assert_eq!(q.collect(0), Vec::<&str>::new());
    assert_eq!(q.collect(2), vec!["a"]);
    assert_eq!(q.len(), 2);
    assert_eq!(q.collect(3), vec!["b", "c"]);
    assert_eq!(q.len(), 0);
}

#[test]
fn frames_in_flight_rotate() {
    let mut ring = FrameRing::new(3);
    let mut seen = vec![ring.current()];
    for _ in 0..4 {
        ring.advance();
        seen.push(ring.current());
    }
    assert_eq!(seen, vec![0, 1, 2, 0, 1]);
    assert_eq!(SwapchainImage::new(2).image_index(), 2);
}

#[test]
fn puzzle_spec_constants_map_to_one_entry_each() {
    let entry = SpecializationMapEntry { constant_id: 0, offset: 0, size: 4 };
    assert_eq!(specialization_map_entries(Some(&AddSpec::type_layout())), vec![entry]);
    assert_eq!(specialization_map_entries(Some(&Add10GuardSpec::type_layout())), vec![entry]);
    assert!(specialization_map_entries(None).is_empty());
}

#[test]
fn spec_constant_fields_become_numbered_entries() {
    let layout = TypeLayout::Struct {
        name: "Tiles",
        size: 16,
        fields: vec![
            FieldLayout { name: "width", offset: 0, ty: TypeLayout::Scalar(ScalarKind::UInt32) },
            FieldLayout { name: "scale", offset: 8, ty: TypeLayout::Scalar(ScalarKind::Float64) },
        ],
    };
    assert_eq!(
        specialization_map_entries(Some(&layout)),
        vec![
            SpecializationMapEntry { constant_id: 0, offset: 0, size: 4 },
            SpecializationMapEntry { constant_id: 1, offset: 8, size: 8 },
        ]
    );
}

#[test]
fn a_shader_without_permutations_has_exactly_one() {
    assert_eq!(<() as ShaderPermutationMatrix>::total_permutations(), 1);
    assert_eq!(().flatten(), 0);
    assert!(().defines().is_empty());
    <() as ShaderPermutationMatrix>::from_flat_index(0);
}

#[test]
fn a_collection_keeps_a_pool_none_of_whose_sets_it_frees() {
    let mut alloc = DescriptorSetAllocator::make(&[(7, 1)]);
    alloc.add_pool(100);
    alloc.add_pool(200);
    alloc.record_allocation(&[1], 555, 200, 1, 0);
    let (freed, released) = alloc.garbage_collection(1, 5_000);
    assert_eq!(freed.len(), 1);
    assert_eq!(released, vec![200]);
    assert_eq!(alloc.pools(), vec![100]);
    assert_eq!(alloc.sets_remaining(100), Some(MAX_SETS));
}

#[test]
fn puzzle_push_constants_carry_their_addresses() {
    let offsets = |t: &TypeLayout| -> Vec<(u32, bool)> {
        t.address_slots().iter().map(|s| (s.offset, s.writable)).collect()
    };
    let add = AddPush::type_layout();
    assert_eq!(add.size(), 24);
    assert_eq!(offsets(&add), vec![(0, true), (8, false), (16, false)]);
    let guard = Add10GuardPush::type_layout();
    assert_eq!(guard.size(), 24);
    assert_eq!(offsets(&guard), vec![(0, true), (8, false)]);
    let tensors = Add102dPush::type_layout(ScalarKind::UInt32);
    assert_eq!(tensors.size(), 16);
    assert_eq!(offsets(&tensors), vec![(0, true), (8, false)]);
}

#[test]
fn a_reused_slot_hands_out_a_new_id() {
    let mut a: Arena<&str> = Arena::new();
    let x = a.insert("x");
    assert_eq!(a.remove(&x), Some("x"));
    let y = a.insert("y");
    assert_eq!(y.index(), x.index());
    assert!(!y.same_as(&x));
    assert_eq!(a.get(&x), None);
    assert_eq!(a.get(&y), Some(&"y"));
}

#[test]
fn scalar_names_name_one_kind_each() {
    let kinds = [
        ScalarKind::Bool, ScalarKind::Int8, ScalarKind::UInt8, ScalarKind::Int16,
        ScalarKind::UInt16, ScalarKind::Int32, ScalarKind::UInt32, ScalarKind::Int64,
        ScalarKind::UInt64, ScalarKind::Float32, ScalarKind::Float64,
    ];
    for (i, a) in kinds.iter().enumerate() {
        for b in &kinds[i + 1..] {
            assert_ne!(a.slang_name(), b.slang_name());
        }
    }
    assert_eq!(ScalarKind::Float32.slang_name(), "float32");
}

#[test]
fn address_slots_lie_inside_their_type() {
    let push = AddPush::type_layout();
    for slot in push.address_slots() {
        assert!(slot.offset + 8 <= push.size());
    }
}
