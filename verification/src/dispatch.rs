//! What enqueuing work on the device decides before anything is recorded: the transitions a
//! compute dispatch, a fill or a copy declares to the render graph, the push constant block
//! padded to whole words, and the buffer handles and device addresses that travel in it.
use vstd::prelude::*;
use vstd::bytes::{
    spec_u64_from_le_bytes, spec_u64_to_le_bytes, spec_u64_to_le_bytes_open, u64_from_le_bytes,
    u64_to_le_bytes,
};
use crate::render_graph::{
    RgBufferTransition,
    RgContext,
    RgImageTransition,
    buffer_transfer_read,
    buffer_transfer_write,
    constant_buffer_read,
    depends_on,
    graph_uses,
    storage_buffer_read,
    storage_buffer_read_write,
};
use crate::shader_parameter::DescriptorKind;
use crate::shader_type::{AddressSlot, FieldLayout, TypeLayout, size_computable, spec_size};
use crate::vk_flags::{ACCESS_SHADER_READ, ACCESS_SHADER_WRITE, PIPELINE_STAGE_COMPUTE_SHADER};
use crate::render_graph::RgAccessKind;

verus! {

/// The transition a kernel parameter of kind `kind` declares for its buffer at `stage`: a
/// constant buffer and a structured buffer are read, a read-write structured buffer is read
/// and written.
pub open spec fn parameter_transition_of(kind: DescriptorKind, buffer: u64, stage: u64) -> RgBufferTransition {
    match kind {
        DescriptorKind::ConstantBuffer => RgBufferTransition {
            buffer,
            kind: RgAccessKind::Read,
            stage,
            access: ACCESS_SHADER_READ,
        },
        DescriptorKind::StructuredBuffer => RgBufferTransition {
            buffer,
            kind: RgAccessKind::Read,
            stage,
            access: ACCESS_SHADER_READ,
        },
        DescriptorKind::RWStructuredBuffer => RgBufferTransition {
            buffer,
            kind: RgAccessKind::ReadWrite,
            stage,
            access: ACCESS_SHADER_READ | ACCESS_SHADER_WRITE,
        },
    }
}

/// The transition a kernel parameter of kind `kind` declares for its buffer at `stage`.
pub fn parameter_transition(kind: DescriptorKind, buffer: u64, stage: u64) -> (r: RgBufferTransition)
    ensures
        r == parameter_transition_of(kind, buffer, stage),
{
    match kind {
        DescriptorKind::ConstantBuffer => constant_buffer_read(buffer, stage),
        DescriptorKind::StructuredBuffer => storage_buffer_read(buffer, stage),
        DescriptorKind::RWStructuredBuffer => storage_buffer_read_write(buffer, stage),
    }
}

/// The transition of the buffer behind an address slot at `stage`: read and written
/// through a writable slot, read otherwise.
pub open spec fn address_transition_of(slot: AddressSlot, buffer: u64, stage: u64) -> RgBufferTransition {
    if slot.writable {
        RgBufferTransition {
            buffer,
            kind: RgAccessKind::ReadWrite,
            stage,
            access: ACCESS_SHADER_READ | ACCESS_SHADER_WRITE,
        }
    } else {
        RgBufferTransition { buffer, kind: RgAccessKind::Read, stage, access: ACCESS_SHADER_READ }
    }
}

/// The transitions of the buffers behind the address slots, in slot order: slot `i` for
/// `buffers[i]`.
pub fn address_transitions(slots: &[AddressSlot], buffers: &[u64], stage: u64) -> (r: Vec<
    RgBufferTransition,
>)
    requires
        buffers@.len() >= slots@.len(),
    ensures
        r@ == Seq::new(slots@.len(), |i: int| address_transition_of(slots@[i], buffers@[i], stage)),
{
    let mut r: Vec<RgBufferTransition> = Vec::new();
    let mut i: usize = 0;
    while i < slots.len()
        invariant
            i <= slots@.len(),
            buffers@.len() >= slots@.len(),
            r@ == Seq::new(i as nat, |j: int| address_transition_of(slots@[j], buffers@[j], stage)),
        decreases slots@.len() - i,
    {
        let t = if slots[i].writable {
            storage_buffer_read_write(buffers[i], stage)
        } else {
            storage_buffer_read(buffers[i], stage)
        };
        r.push(t);
        i = i + 1;
        proof {
            assert(r@ =~= Seq::new(i as nat, |j: int| address_transition_of(slots@[j], buffers@[j], stage)));
        }
    }
    r
}

/// What a dispatch declares at `stage`: the transition of each parameter's buffer, in
/// parameter order, then that of each buffer behind an address slot, in slot order.
pub open spec fn dispatch_transitions(
    parameters: Seq<(DescriptorKind, u64)>,
    slots: Seq<AddressSlot>,
    buffers: Seq<u64>,
    stage: u64,
) -> Seq<RgBufferTransition> {
    parameters.map_values(|p: (DescriptorKind, u64)| parameter_transition_of(p.0, p.1, stage))
        + Seq::new(slots.len(), |i: int| address_transition_of(slots[i], buffers[i], stage))
}

/// The number of zero bytes that bring `len` up to a whole number of 4-byte words.
pub open spec fn word_padding(len: nat) -> nat {
    ((4 - len % 4) % 4) as nat
}

/// The push constant block padded with zeros to a whole number of 4-byte words, the
/// granularity push constant ranges are created with.
pub open spec fn padded_push_constant(bytes: Seq<u8>) -> Seq<u8> {
    bytes + Seq::new(word_padding(bytes.len()), |i: int| 0u8)
}

/// Pads the push constant block with zeros to a whole number of 4-byte words.
pub fn pad_push_constant(bytes: &[u8]) -> (r: Vec<u8>)
    ensures
        r@ == padded_push_constant(bytes@),
        r@.len() % 4 == 0,
{
    let mut r: Vec<u8> = Vec::new();
    let mut k: usize = 0;
    while k < bytes.len()
        invariant
            k <= bytes@.len(),
            r@ == bytes@.take(k as int),
        decreases bytes@.len() - k,
    {
        r.push(bytes[k]);
        k = k + 1;
        proof {
            assert(r@ =~= bytes@.take(k as int));
        }
    }
    proof {
        assert(bytes@.take(k as int) =~= bytes@);
    }
    let pad = (4 - bytes.len() % 4) % 4;
    let mut j: usize = 0;
    while j < pad
        invariant
            j <= pad,
            pad == word_padding(bytes@.len()),
            r@ == bytes@ + Seq::new(j as nat, |i: int| 0u8),
        decreases pad - j,
    {
        r.push(0u8);
        j = j + 1;
        proof {
            assert(r@ =~= bytes@ + Seq::new(j as nat, |i: int| 0u8));
        }
    }
    r
}

/// `u64::from_ne_bytes`: the value of `bytes` read in the machine's byte order,
/// little-endian or big-endian (the bytes reversed); which one depends on the machine.
#[verifier::external_body]
fn u64_from_ne_bytes(bytes: [u8; 8]) -> (r: u64)
    ensures
        r == spec_u64_from_le_bytes(bytes@) || r == spec_u64_from_le_bytes(bytes@.reverse()),
{
    u64::from_ne_bytes(bytes)
}

/// `u64::to_ne_bytes`: the bytes of `x` in the machine's byte order, little-endian or
/// big-endian (the little-endian bytes reversed); which one depends on the machine.
#[verifier::external_body]
fn u64_to_ne_bytes(x: u64) -> (r: [u8; 8])
    ensures
        r@ == spec_u64_to_le_bytes(x) || r@ == spec_u64_to_le_bytes(x).reverse(),
{
    x.to_ne_bytes()
}

/// Every slot lies inside the push constant block.
pub open spec fn slots_inside(slots: Seq<AddressSlot>, len: nat) -> bool {
    forall|i: int| 0 <= i < slots.len() ==> #[trigger] slots[i].offset + 8 <= len
}

/// The 8 bytes of the block at a slot.
pub open spec fn slot_bytes(bytes: Seq<u8>, slot: AddressSlot) -> Seq<u8> {
    bytes.subrange(slot.offset as int, slot.offset + 8)
}

/// The value of 8 bytes read in one byte order: little-endian, or big-endian when `big`.
pub open spec fn ne_value(bytes: Seq<u8>, big: bool) -> u64 {
    if big {
        spec_u64_from_le_bytes(bytes.reverse())
    } else {
        spec_u64_from_le_bytes(bytes)
    }
}

/// The 8 bytes of `x` in one byte order: little-endian, or big-endian when `big`.
pub open spec fn ne_bytes(x: u64, big: bool) -> Seq<u8> {
    if big {
        spec_u64_to_le_bytes(x).reverse()
    } else {
        spec_u64_to_le_bytes(x)
    }
}

/// Whether `r` holds, slot by slot, the values of the slots' bytes, every one read in the
/// one byte order `big` names.
pub open spec fn handles_read_in(bytes: Seq<u8>, slots: Seq<AddressSlot>, r: Seq<u64>, big: bool) -> bool {
    &&& r.len() == slots.len()
    &&& forall|i: int| 0 <= i < slots.len() ==> #[trigger] r[i] == ne_value(slot_bytes(bytes, slots[i]), big)
}

/// The bytes of 1, and of 1 shifted into the top byte, in little-endian order.
proof fn lemma_probe_bytes()
    ensures
        spec_u64_to_le_bytes(1) == seq![1u8, 0u8, 0u8, 0u8, 0u8, 0u8, 0u8, 0u8],
        spec_u64_from_le_bytes(seq![1u8, 0u8, 0u8, 0u8, 0u8, 0u8, 0u8, 0u8]) == 1,
        spec_u64_from_le_bytes(seq![0u8, 0u8, 0u8, 0u8, 0u8, 0u8, 0u8, 1u8]) != 1,
{
    vstd::bytes::lemma_auto_spec_u64_to_from_le_bytes();
    vstd::bytes::spec_u64_to_le_bytes_to_open(1);
    vstd::bytes::spec_u64_to_le_bytes_to_open(0x0100_0000_0000_0000);
    let one: u64 = 1;
    let top: u64 = 0x0100_0000_0000_0000;
    assert((one & 0xff) as u8 == 1u8 && ((one >> 8) & 0xff) as u8 == 0u8 && ((one >> 16) & 0xff) as u8
        == 0u8 && ((one >> 24) & 0xff) as u8 == 0u8 && ((one >> 32) & 0xff) as u8 == 0u8 && ((one
        >> 40) & 0xff) as u8 == 0u8 && ((one >> 48) & 0xff) as u8 == 0u8 && ((one >> 56) & 0xff) as u8
        == 0u8) by (bit_vector)
        requires
            one == 1u64,
    ;
    assert((top & 0xff) as u8 == 0u8 && ((top >> 8) & 0xff) as u8 == 0u8 && ((top >> 16) & 0xff) as u8
        == 0u8 && ((top >> 24) & 0xff) as u8 == 0u8 && ((top >> 32) & 0xff) as u8 == 0u8 && ((top
        >> 40) & 0xff) as u8 == 0u8 && ((top >> 48) & 0xff) as u8 == 0u8 && ((top >> 56) & 0xff) as u8
        == 1u8) by (bit_vector)
        requires
            top == 0x0100_0000_0000_0000u64,
    ;
    assert(spec_u64_to_le_bytes_open(1) =~= seq![1u8, 0u8, 0u8, 0u8, 0u8, 0u8, 0u8, 0u8]);
    assert(spec_u64_to_le_bytes_open(0x0100_0000_0000_0000) =~= seq![
        0u8,
        0u8,
        0u8,
        0u8,
        0u8,
        0u8,
        0u8,
        1u8,
    ]);
    assert(spec_u64_from_le_bytes(spec_u64_to_le_bytes(1)) == 1);
    assert(spec_u64_from_le_bytes(spec_u64_to_le_bytes(0x0100_0000_0000_0000)) == 0x0100_0000_0000_0000);
}

/// The buffer handles the push constant block carries at its address slots, in slot order,
/// each read in the machine's byte order: one order for every slot, the one
/// `u64::from_ne_bytes` reads in.
pub fn address_slot_handles(slots: &[AddressSlot], bytes: &[u8]) -> (r: Vec<u64>)
    requires
        slots_inside(slots@, bytes@.len()),
    ensures
        r@.len() == slots@.len(),
        exists|big: bool| #[trigger] handles_read_in(bytes@, slots@, r@, big),
{
    // Ask the machine once which order it reads in.
    let probe = u64_from_ne_bytes([1u8, 0, 0, 0, 0, 0, 0, 0]);
    let big = probe != 1;
    proof {
        lemma_probe_bytes();
        assert([1u8, 0, 0, 0, 0, 0, 0, 0]@ =~= seq![1u8, 0u8, 0u8, 0u8, 0u8, 0u8, 0u8, 0u8]);
        assert(seq![1u8, 0u8, 0u8, 0u8, 0u8, 0u8, 0u8, 0u8].reverse() =~= seq![
            0u8,
            0u8,
            0u8,
            0u8,
            0u8,
            0u8,
            0u8,
            1u8,
        ]);
    }
    let mut r: Vec<u64> = Vec::new();
    let mut i: usize = 0;
    while i < slots.len()
        invariant
            i <= slots@.len(),
            slots_inside(slots@, bytes@.len()),
            r@.len() == i,
            forall|j: int|
                0 <= j < i ==> #[trigger] r@[j] == ne_value(slot_bytes(bytes@, slots@[j]), big),
        decreases slots@.len() - i,
    {
        let at = slots[i].offset as usize;
        proof {
            assert(slots@[i as int].offset + 8 <= bytes@.len());
        }
        let blen = bytes.len();
        assert(at + 8 <= blen);
        let raw: [u8; 8] = if big {
            [
                bytes[at + 7],
                bytes[at + 6],
                bytes[at + 5],
                bytes[at + 4],
                bytes[at + 3],
                bytes[at + 2],
                bytes[at + 1],
                bytes[at],
            ]
        } else {
            [
                bytes[at],
                bytes[at + 1],
                bytes[at + 2],
                bytes[at + 3],
                bytes[at + 4],
                bytes[at + 5],
                bytes[at + 6],
                bytes[at + 7],
            ]
        };
        proof {
            if big {
                assert(raw@ =~= slot_bytes(bytes@, slots@[i as int]).reverse());
            } else {
                assert(raw@ =~= slot_bytes(bytes@, slots@[i as int]));
            }
        }
        let v = u64_from_le_bytes(raw.as_slice());
        r.push(v);
        i = i + 1;
    }
    assert(handles_read_in(bytes@, slots@, r@, big));
    r
}

/// Whether, in `r`, every slot that no later slot overlaps holds its address in the one
/// byte order `big` names.
pub open spec fn addresses_written_in(
    r: Seq<u8>,
    slots: Seq<AddressSlot>,
    addresses: Seq<u64>,
    big: bool,
) -> bool {
    forall|i: int|
        #![trigger slots[i]]
        0 <= i < slots.len() && (forall|j: int|
            i < j < slots.len() ==> slots[j].offset + 8 <= slots[i].offset || slots[i].offset + 8
                <= #[trigger] slots[j].offset) ==> slot_bytes(r, slots[i]) == ne_bytes(addresses[i], big)
}

/// The push constant block with the device address of slot `i`'s buffer written over the
/// handle at that slot, in the machine's byte order (one order for every slot, the one
/// `u64::to_ne_bytes` writes in); bytes outside the slots are unchanged.
pub fn patch_addresses(bytes: &[u8], slots: &[AddressSlot], addresses: &[u64]) -> (r: Vec<u8>)
    requires
        slots_inside(slots@, bytes@.len()),
        addresses@.len() == slots@.len(),
    ensures
        r@.len() == bytes@.len(),
        forall|k: int|
            0 <= k < bytes@.len() && (forall|i: int|
                0 <= i < slots@.len() ==> !(slots@[i].offset <= k < #[trigger] slots@[i].offset
                    + 8)) ==> #[trigger] r@[k] == bytes@[k],
        exists|big: bool| #[trigger] addresses_written_in(r@, slots@, addresses@, big),
{
    // Ask the machine once which order it writes in.
    let probe = u64_to_ne_bytes(1);
    let big = probe[0] != 1;
    proof {
        lemma_probe_bytes();
        assert(spec_u64_to_le_bytes(1)[0] == 1u8);
        assert(spec_u64_to_le_bytes(1).reverse()[0] == 0u8);
        assert(big == (probe@ == spec_u64_to_le_bytes(1).reverse()));
    }
    let mut r: Vec<u8> = Vec::new();
    let mut k: usize = 0;
    while k < bytes.len()
        invariant
            k <= bytes@.len(),
            r@ == bytes@.take(k as int),
        decreases bytes@.len() - k,
    {
        r.push(bytes[k]);
        k = k + 1;
        proof {
            assert(r@ =~= bytes@.take(k as int));
        }
    }
    proof {
        assert(bytes@.take(k as int) =~= bytes@);
    }
    let mut i: usize = 0;
    while i < slots.len()
        invariant
            i <= slots@.len(),
            slots_inside(slots@, bytes@.len()),
            addresses@.len() == slots@.len(),
            r@.len() == bytes@.len(),
            forall|k: int|
                0 <= k < bytes@.len() && (forall|j: int|
                    0 <= j < i ==> !(slots@[j].offset <= k < #[trigger] slots@[j].offset + 8))
                    ==> #[trigger] r@[k] == bytes@[k],
            forall|j: int|
                #![trigger slots@[j]]
                0 <= j < i && (forall|l: int|
                    j < l < i ==> slots@[l].offset + 8 <= slots@[j].offset || slots@[j].offset
                        + 8 <= #[trigger] slots@[l].offset) ==> slot_bytes(r@, slots@[j])
                    == ne_bytes(addresses@[j], big),
        decreases slots@.len() - i,
    {
        let at = slots[i].offset as usize;
        proof {
            assert(slots@[i as int].offset + 8 <= bytes@.len());
        }
        let le = u64_to_le_bytes(addresses[i]);
        let ghost encoded = ne_bytes(addresses@[i as int], big);
        let ghost before = r@;
        let blen = bytes.len();
        let mut b: usize = 0;
        while b < 8
            invariant
                b <= 8,
                blen == r@.len(),
                at + 8 <= blen,
                r@.len() == before.len(),
                le@ == spec_u64_to_le_bytes(addresses@[i as int]),
                le@.len() == 8,
                encoded == ne_bytes(addresses@[i as int], big),
                forall|k: int| 0 <= k < r@.len() && !(at <= k < at + b) ==> #[trigger] r@[k] == before[k],
                forall|c: int| 0 <= c < b ==> #[trigger] r@[at + c] == encoded[c],
            decreases 8 - b,
        {
            let byte = if big {
                le[7 - b]
            } else {
                le[b]
            };
            proof {
                assert(byte == encoded[b as int]);
            }
            r.set(at + b, byte);
            b = b + 1;
        }
        proof {
            let s = slots@[i as int];
            assert(at == s.offset);
            assert forall|c: int| 0 <= c < 8 implies slot_bytes(r@, s)[c] == encoded[c] by {
                assert(r@[at + c] == encoded[c]);
            }
            assert(slot_bytes(r@, s) =~= encoded);
            assert forall|k: int|
                0 <= k < bytes@.len() && (forall|j: int|
                    0 <= j < i + 1 ==> !(slots@[j].offset <= k < #[trigger] slots@[j].offset + 8))
                    implies #[trigger] r@[k] == bytes@[k] by {
                assert(!(slots@[i as int].offset <= k < slots@[i as int].offset + 8));
                assert(r@[k] == before[k]);
            }
            assert forall|j: int|
                #![trigger slots@[j]]
                0 <= j < i + 1 && (forall|l: int|
                    j < l < i + 1 ==> slots@[l].offset + 8 <= slots@[j].offset || slots@[j].offset
                        + 8 <= #[trigger] slots@[l].offset) implies slot_bytes(r@, slots@[j])
                == ne_bytes(addresses@[j], big) by {
                if j < i {
                    assert(slots@[j].offset + 8 <= slots@[i as int].offset || slots@[i as int].offset
                        + 8 <= slots@[j].offset);
                    assert(slot_bytes(r@, slots@[j]) =~= slot_bytes(before, slots@[j]));
                }
            }
        }
        i = i + 1;
    }
    assert(addresses_written_in(r@, slots@, addresses@, big));
    r
}

/// Whether no two slots share a byte.
pub open spec fn slots_disjoint(slots: Seq<AddressSlot>) -> bool {
    forall|i: int, j: int|
        #![trigger slots[i], slots[j]]
        0 <= i < j < slots.len() ==> slots[j].offset + 8 <= slots[i].offset || slots[i].offset + 8
            <= slots[j].offset
}

/// Bytes written in one byte order read back, in that order, as the value written.
pub proof fn law_value_read_back_in_the_order_written(x: u64, big: bool)
    ensures
        ne_value(ne_bytes(x, big), big) == x,
{
    vstd::bytes::lemma_auto_spec_u64_to_from_le_bytes();
    assert(spec_u64_to_le_bytes(x).reverse().reverse() =~= spec_u64_to_le_bytes(x));
}

/// Reading the handles of a block whose slots were patched, in the byte order they were
/// patched in, gives back the addresses written: slot `i` holds `addresses[i]`.
pub proof fn law_patched_slots_read_back_as_the_addresses(
    r: Seq<u8>,
    slots: Seq<AddressSlot>,
    addresses: Seq<u64>,
    big: bool,
)
    requires
        slots_disjoint(slots),
        addresses.len() == slots.len(),
        addresses_written_in(r, slots, addresses, big),
    ensures
        handles_read_in(r, slots, addresses, big),
{
    assert forall|i: int| 0 <= i < slots.len() implies #[trigger] addresses[i] == ne_value(slot_bytes(r, slots[i]), big) by {
        assert forall|j: int| i < j < slots.len() implies slots[j].offset + 8 <= slots[i].offset
            || slots[i].offset + 8 <= #[trigger] slots[j].offset by {
            assert(slots[i] == slots[i]);
        }
        assert(slots[i] == slots[i]);
        assert(slot_bytes(r, slots[i]) == ne_bytes(addresses[i], big));
        law_value_read_back_in_the_order_written(addresses[i], big);
    }
}

/// The descriptor set writes of a dispatch: parameter `i` at binding `i`, with the
/// descriptor type of its kind.
pub fn descriptor_bindings(kinds: &[DescriptorKind]) -> (r: Vec<(u32, i32)>)
    requires
        kinds@.len() <= u32::MAX,
    ensures
        r@ == Seq::new(
            kinds@.len(),
            |i: int| (i as u32, crate::shader_parameter::descriptor_type_of(kinds@[i])),
        ),
{
    let mut r: Vec<(u32, i32)> = Vec::new();
    let mut i: usize = 0;
    while i < kinds.len()
        invariant
            i <= kinds@.len(),
            kinds@.len() <= u32::MAX,
            r@ == Seq::new(
                i as nat,
                |j: int| (j as u32, crate::shader_parameter::descriptor_type_of(kinds@[j])),
            ),
        decreases kinds@.len() - i,
    {
        r.push((i as u32, kinds[i].descriptor_type()));
        i = i + 1;
        proof {
            assert(r@ =~= Seq::new(
                i as nat,
                |j: int| (j as u32, crate::shader_parameter::descriptor_type_of(kinds@[j])),
            ));
        }
    }
    r
}

impl RgContext {
    /// Registers a fill of `buffer`: a transfer write.
    pub fn enqueue_fill(&mut self, buffer: u64)
        requires
            old(self).wf(),
            old(self).passes().len() < usize::MAX,
        ensures
            final(self).wf(),
            final(self).passes().len() == old(self).passes().len() + 1,
            final(self).passes().drop_last() == old(self).passes(),
            final(self).passes().last().name@ == "enqueue_fill"@,
            final(self).passes().last().buffers@ == seq![buffer_transfer_write_of(buffer)],
            final(self).passes().last().images@ == Seq::<RgImageTransition>::empty(),
            forall|p: usize, q: usize| #[trigger] final(self).dependencies().contains((p, q))
                <==> depends_on(graph_uses(final(self).passes()), p, q),
    {
        let t = [buffer_transfer_write(buffer)];
        let none: [RgImageTransition; 0] = [];
        proof {
            assert(t@ =~= seq![buffer_transfer_write_of(buffer)]);
            assert(none@ =~= Seq::<RgImageTransition>::empty());
        }
        self.enqueue_pass("enqueue_fill", &t, &none);
    }

    /// Registers a copy from buffer `src` to buffer `dst`: a transfer read of the one and a
    /// transfer write of the other.
    pub fn enqueue_copy(&mut self, name: &str, src: u64, dst: u64)
        requires
            old(self).wf(),
            old(self).passes().len() < usize::MAX,
        ensures
            final(self).wf(),
            final(self).passes().len() == old(self).passes().len() + 1,
            final(self).passes().drop_last() == old(self).passes(),
            final(self).passes().last().name@ == name@,
            final(self).passes().last().buffers@ == seq![
                buffer_transfer_read_of(src),
                buffer_transfer_write_of(dst),
            ],
            final(self).passes().last().images@ == Seq::<RgImageTransition>::empty(),
            forall|p: usize, q: usize| #[trigger] final(self).dependencies().contains((p, q))
                <==> depends_on(graph_uses(final(self).passes()), p, q),
    {
        let t = [buffer_transfer_read(src), buffer_transfer_write(dst)];
        let none: [RgImageTransition; 0] = [];
        proof {
            assert(t@ =~= seq![buffer_transfer_read_of(src), buffer_transfer_write_of(dst)]);
            assert(none@ =~= Seq::<RgImageTransition>::empty());
        }
        self.enqueue_pass(name, &t, &none);
    }

    /// Registers a compute dispatch: each parameter's buffer with the transition of its
    /// kind, then each buffer behind an address slot, read or read and written, all at the
    /// compute shader stage.
    pub fn enqueue_dispatch(
        &mut self,
        name: &str,
        parameters: &[(DescriptorKind, u64)],
        slots: &[AddressSlot],
        address_buffers: &[u64],
    )
        requires
            old(self).wf(),
            old(self).passes().len() < usize::MAX,
            address_buffers@.len() == slots@.len(),
        ensures
            final(self).wf(),
            final(self).passes().len() == old(self).passes().len() + 1,
            final(self).passes().drop_last() == old(self).passes(),
            final(self).passes().last().name@ == name@,
            final(self).passes().last().buffers@ == dispatch_transitions(
                parameters@,
                slots@,
                address_buffers@,
                PIPELINE_STAGE_COMPUTE_SHADER,
            ),
            final(self).passes().last().images@ == Seq::<RgImageTransition>::empty(),
            forall|p: usize, q: usize| #[trigger] final(self).dependencies().contains((p, q))
                <==> depends_on(graph_uses(final(self).passes()), p, q),
    {
        let stage = PIPELINE_STAGE_COMPUTE_SHADER;
        let mut transitions: Vec<RgBufferTransition> = Vec::new();
        let mut i: usize = 0;
        while i < parameters.len()
            invariant
                i <= parameters@.len(),
                stage == PIPELINE_STAGE_COMPUTE_SHADER,
                transitions@ == parameters@.take(i as int).map_values(
                    |p: (DescriptorKind, u64)| parameter_transition_of(p.0, p.1, stage),
                ),
            decreases parameters@.len() - i,
        {
            let (kind, buffer) = parameters[i];
            transitions.push(parameter_transition(kind, buffer, stage));
            i = i + 1;
            proof {
                assert(transitions@ =~= parameters@.take(i as int).map_values(
                    |p: (DescriptorKind, u64)| parameter_transition_of(p.0, p.1, stage),
                ));
            }
        }
        proof {
            assert(parameters@.take(i as int) =~= parameters@);
        }
        let from_slots = address_transitions(slots, address_buffers, stage);
        let mut k: usize = 0;
        let ghost base = transitions@;
        while k < from_slots.len()
            invariant
                k <= from_slots@.len(),
                transitions@ == base + from_slots@.take(k as int),
            decreases from_slots@.len() - k,
        {
            transitions.push(from_slots[k]);
            k = k + 1;
            proof {
                assert(transitions@ =~= base + from_slots@.take(k as int));
            }
        }
        proof {
            assert(from_slots@.take(k as int) =~= from_slots@);
            assert(transitions@ =~= dispatch_transitions(parameters@, slots@, address_buffers@, stage));
        }
        let none: [RgImageTransition; 0] = [];
        proof {
            assert(none@ =~= Seq::<RgImageTransition>::empty());
        }
        self.enqueue_pass(name, transitions.as_slice(), &none);
    }
}

pub open spec fn buffer_transfer_read_of(buffer: u64) -> RgBufferTransition {
    RgBufferTransition {
        buffer,
        kind: RgAccessKind::Read,
        stage: crate::vk_flags::PIPELINE_STAGE_TRANSFER,
        access: crate::vk_flags::ACCESS_TRANSFER_READ,
    }
}

pub open spec fn buffer_transfer_write_of(buffer: u64) -> RgBufferTransition {
    RgBufferTransition {
        buffer,
        kind: RgAccessKind::Write,
        stage: crate::vk_flags::PIPELINE_STAGE_TRANSFER,
        access: crate::vk_flags::ACCESS_TRANSFER_WRITE,
    }
}

/// The value every fill writes: a 32-bit pattern.
pub trait U32Castable {
    fn to_u32(self) -> u32;
}

/// How one specialization constant reaches a pipeline: its id, and where its value sits in
/// the constant block handed over with it.
#[derive(Debug, Clone, Copy, PartialEq, Eq, Structural)]
pub struct SpecializationMapEntry {
    pub constant_id: u32,
    pub offset: u32,
    pub size: u32,
}

/// The map entries of a specialization-constant struct: field `i` is constant `i`, at the
/// field's offset and with the field's size.
pub open spec fn spec_map_entries(fields: Seq<FieldLayout>) -> Seq<SpecializationMapEntry> {
    Seq::new(
        fields.len(),
        |i: int|
            SpecializationMapEntry {
                constant_id: i as u32,
                offset: fields[i].offset,
                size: spec_size(fields[i].ty) as u32,
            },
    )
}

/// Whether a function's specialization-constant layout can be mapped: there is none, or it
/// is a struct whose field sizes fit in `u32`.
pub open spec fn spec_constant_mappable(spec_constant: Option<TypeLayout>) -> bool {
    match spec_constant {
        None => true,
        Some(TypeLayout::Struct { fields, .. }) => forall|i: int|
            0 <= i < fields@.len() ==> size_computable(#[trigger] fields@[i].ty),
        Some(_) => false,
    }
}

/// The map entries that tell a pipeline where each specialization constant sits: one per
/// field of the constant struct, none when the function has no specialization constant.
pub fn specialization_map_entries(spec_constant: Option<&TypeLayout>) -> (r: Vec<SpecializationMapEntry>)
    requires
        spec_constant_mappable(
            match spec_constant {
                Some(t) => Some(*t),
                None => None,
            },
        ),
    ensures
        match spec_constant {
            Some(TypeLayout::Struct { fields, .. }) => r@ == spec_map_entries(fields@),
            _ => r@.len() == 0,
        },
{
    let mut entries: Vec<SpecializationMapEntry> = Vec::new();
    match spec_constant {
        Some(TypeLayout::Struct { fields, .. }) => {
            let mut i: usize = 0;
            while i < fields.len()
                invariant
                    i <= fields@.len(),
                    forall|k: int| 0 <= k < fields@.len() ==> size_computable(#[trigger] fields@[k].ty),
                    entries@ == spec_map_entries(fields@).take(i as int),
                decreases fields@.len() - i,
            {
                let field = &fields[i];
                let entry = SpecializationMapEntry {
                    constant_id: i as u32,
                    offset: field.offset,
                    size: field.ty.size(),
                };
                entries.push(entry);
                proof {
                    assert(entries@ =~= spec_map_entries(fields@).take(i + 1));
                }
                i = i + 1;
            }
            proof {
                assert(spec_map_entries(fields@).take(fields@.len() as int) =~= spec_map_entries(fields@));
            }
        },
        _ => {},
    }
    entries
}

} // verus!
