//! Synchronization for a render graph's passes: each pass's uses merged per resource, the
//! barriers a pass needs given what the passes before it did, and the plan for running the
//! whole graph.
use vstd::prelude::*;
use std::collections::HashMap;
use crate::render_graph::{
    ImageSubresourceRange,
    RgBufferTransition,
    RgContext,
    RgImageTransition,
    RgPass,
};
use crate::topo::{is_breadth_first_order, is_topological_order};
use crate::vk_flags::{
    ACCESS_NONE,
    ACCESS_WRITE_MASK,
    IMAGE_LAYOUT_PRESENT_SRC,
    IMAGE_LAYOUT_UNDEFINED,
    PIPELINE_STAGE_BOTTOM_OF_PIPE,
    PIPELINE_STAGE_NONE,
    PIPELINE_STAGE_TOP_OF_PIPE,
};

verus! {

broadcast use vstd::std_specs::hash::group_hash_axioms;

/// All of a pass's uses of one buffer: the union of their stages and accesses.
#[derive(Clone, Copy, PartialEq, Eq, Structural, Debug)]
pub struct MergedBufferUse {
    pub buffer: u64,
    pub stage: u64,
    pub access: u64,
}

/// All of a pass's uses of one image: the union of their stages and accesses, and the range
/// and layout of the last of them.
#[derive(Clone, Copy, PartialEq, Eq, Structural, Debug)]
pub struct MergedImageUse {
    pub image: u64,
    pub subresource_range: ImageSubresourceRange,
    pub stage: u64,
    pub access: u64,
    pub layout: i32,
}

/// A global memory barrier (`VkMemoryBarrier2`).
#[derive(Clone, Copy, PartialEq, Eq, Structural, Debug)]
pub struct MemoryBarrier {
    pub src_stage: u64,
    pub src_access: u64,
    pub dst_stage: u64,
    pub dst_access: u64,
}

/// An image memory barrier with a layout transition (`VkImageMemoryBarrier2`).
#[derive(Clone, Copy, PartialEq, Eq, Structural, Debug)]
pub struct ImageMemoryBarrier {
    pub src_stage: u64,
    pub src_access: u64,
    pub dst_stage: u64,
    pub dst_access: u64,
    pub old_layout: i32,
    pub new_layout: i32,
    pub image: u64,
    pub subresource_range: ImageSubresourceRange,
}

/// What the graph knows of a buffer: the stages and accesses of its last use, and whether
/// that use wrote it.
#[derive(Clone, Copy, PartialEq, Eq, Structural, Debug)]
pub struct RgBufferState {
    pub stage: u64,
    pub access: u64,
    pub was_write: bool,
}

/// What the graph knows of an image: as for a buffer, and the layout it was left in.
#[derive(Clone, Copy, PartialEq, Eq, Structural, Debug)]
pub struct RgImageState {
    pub stage: u64,
    pub access: u64,
    pub layout: i32,
    pub was_write: bool,
}

pub open spec fn initial_buffer_state() -> RgBufferState {
    RgBufferState { stage: PIPELINE_STAGE_TOP_OF_PIPE, access: ACCESS_NONE, was_write: false }
}

pub open spec fn initial_image_state() -> RgImageState {
    RgImageState {
        stage: PIPELINE_STAGE_TOP_OF_PIPE,
        access: ACCESS_NONE,
        layout: IMAGE_LAYOUT_UNDEFINED,
        was_write: false,
    }
}

impl RgBufferState {
    /// A buffer nothing has used yet.
    pub fn initial() -> (r: Self)
        ensures
            r == initial_buffer_state(),
    {
        RgBufferState { stage: PIPELINE_STAGE_TOP_OF_PIPE, access: ACCESS_NONE, was_write: false }
    }
}

impl RgImageState {
    /// An image nothing has used yet, in an undefined layout.
    pub fn initial() -> (r: Self)
        ensures
            r == initial_image_state(),
    {
        RgImageState {
            stage: PIPELINE_STAGE_TOP_OF_PIPE,
            access: ACCESS_NONE,
            layout: IMAGE_LAYOUT_UNDEFINED,
            was_write: false,
        }
    }
}

/// The state of every resource used so far, by raw handle.
pub struct RgStates {
    pub buffers: HashMap<u64, RgBufferState>,
    pub images: HashMap<u64, RgImageState>,
}

impl RgStates {
    /// No resource used yet.
    pub fn new() -> (r: Self)
        ensures
            r.buffers@ == Map::<u64, RgBufferState>::empty(),
            r.images@ == Map::<u64, RgImageState>::empty(),
    {
        RgStates { buffers: HashMap::new(), images: HashMap::new() }
    }
}

/// An access with any write bit set.
pub open spec fn is_write_access(access: u64) -> bool {
    access & ACCESS_WRITE_MASK != 0
}

fn writes_memory(access: u64) -> (r: bool)
    ensures
        r == is_write_access(access),
{
    access & ACCESS_WRITE_MASK != ACCESS_NONE
}

pub open spec fn buffer_stage_union(ts: Seq<RgBufferTransition>, key: u64) -> u64
    decreases ts.len(),
{
    if ts.len() == 0 {
        0
    } else {
        buffer_stage_union(ts.drop_last(), key) | if ts.last().buffer == key {
            ts.last().stage
        } else {
            0
        }
    }
}

pub open spec fn buffer_access_union(ts: Seq<RgBufferTransition>, key: u64) -> u64
    decreases ts.len(),
{
    if ts.len() == 0 {
        0
    } else {
        buffer_access_union(ts.drop_last(), key) | if ts.last().buffer == key {
            ts.last().access
        } else {
            0
        }
    }
}

pub open spec fn image_stage_union(ts: Seq<RgImageTransition>, key: u64) -> u64
    decreases ts.len(),
{
    if ts.len() == 0 {
        0
    } else {
        image_stage_union(ts.drop_last(), key) | if ts.last().image == key {
            ts.last().stage
        } else {
            0
        }
    }
}

pub open spec fn image_access_union(ts: Seq<RgImageTransition>, key: u64) -> u64
    decreases ts.len(),
{
    if ts.len() == 0 {
        0
    } else {
        image_access_union(ts.drop_last(), key) | if ts.last().image == key {
            ts.last().access
        } else {
            0
        }
    }
}

/// The last transition of image `key`, if any.
pub open spec fn last_image_transition(ts: Seq<RgImageTransition>, key: u64) -> Option<
    RgImageTransition,
>
    decreases ts.len(),
{
    if ts.len() == 0 {
        None
    } else if ts.last().image == key {
        Some(ts.last())
    } else {
        last_image_transition(ts.drop_last(), key)
    }
}

/// Some entry of `m` is for buffer `key`.
pub open spec fn merge_has_buffer(m: Seq<MergedBufferUse>, key: u64) -> bool {
    exists|a: int| 0 <= a < m.len() && (#[trigger] m[a]).buffer == key
}

/// Some transition of `ts` is for buffer `key`.
pub open spec fn uses_buffer(ts: Seq<RgBufferTransition>, key: u64) -> bool {
    exists|j: int| 0 <= j < ts.len() && (#[trigger] ts[j]).buffer == key
}

/// Some entry of `m` is for image `key`.
pub open spec fn merge_has_image(m: Seq<MergedImageUse>, key: u64) -> bool {
    exists|a: int| 0 <= a < m.len() && (#[trigger] m[a]).image == key
}

/// Some transition of `ts` is for image `key`.
pub open spec fn uses_image(ts: Seq<RgImageTransition>, key: u64) -> bool {
    exists|j: int| 0 <= j < ts.len() && (#[trigger] ts[j]).image == key
}

/// `m` holds one entry per buffer that `ts` uses, by increasing handle, with the union of
/// the stages and of the accesses of that buffer's transitions.
pub open spec fn is_buffer_merge(ts: Seq<RgBufferTransition>, m: Seq<MergedBufferUse>) -> bool {
    &&& forall|a: int, b: int| 0 <= a < b < m.len() ==> m[a].buffer < m[b].buffer
    &&& forall|key: u64| #[trigger] merge_has_buffer(m, key) <==> uses_buffer(ts, key)
    &&& forall|a: int|
        0 <= a < m.len() ==> (#[trigger] m[a]).stage == buffer_stage_union(ts, m[a].buffer)
            && m[a].access == buffer_access_union(ts, m[a].buffer)
}

/// `m` holds one entry per image that `ts` uses, by increasing handle, with the union of
/// the stages and of the accesses of that image's transitions, and the range and layout of
/// the last of them.
pub open spec fn is_image_merge(ts: Seq<RgImageTransition>, m: Seq<MergedImageUse>) -> bool {
    &&& forall|a: int, b: int| 0 <= a < b < m.len() ==> m[a].image < m[b].image
    &&& forall|key: u64| #[trigger] merge_has_image(m, key) <==> uses_image(ts, key)
    &&& forall|a: int|
        0 <= a < m.len() ==> {
            &&& (#[trigger] m[a]).stage == image_stage_union(ts, m[a].image)
            &&& m[a].access == image_access_union(ts, m[a].image)
            &&& last_image_transition(ts, m[a].image) matches Some(t) && t.subresource_range
                == m[a].subresource_range && t.layout == m[a].layout
        }
}

proof fn lemma_or_zero(x: u64)
    ensures
        x | 0 == x,
        0 | x == x,
{
    assert(x | 0 == x) by (bit_vector);
    assert(0 | x == x) by (bit_vector);
}

proof fn lemma_buffer_union_step(ts: Seq<RgBufferTransition>, k: int, key: u64)
    requires
        0 <= k < ts.len(),
    ensures
        buffer_stage_union(ts.take(k + 1), key) == (buffer_stage_union(ts.take(k), key) | if ts[k].buffer
            == key {
            ts[k].stage
        } else {
            0
        }),
        buffer_access_union(ts.take(k + 1), key) == (buffer_access_union(ts.take(k), key) | if ts[k].buffer
            == key {
            ts[k].access
        } else {
            0
        }),
{
    assert(ts.take(k + 1).drop_last() =~= ts.take(k));
    assert(ts.take(k + 1).last() == ts[k]);
}

proof fn lemma_buffer_union_absent(ts: Seq<RgBufferTransition>, key: u64)
    requires
        forall|j: int| 0 <= j < ts.len() ==> (#[trigger] ts[j]).buffer != key,
    ensures
        buffer_stage_union(ts, key) == 0,
        buffer_access_union(ts, key) == 0,
    decreases ts.len(),
{
    if ts.len() > 0 {
        assert forall|j: int| 0 <= j < ts.drop_last().len() implies (
        #[trigger] ts.drop_last()[j]).buffer != key by {
            assert(ts.drop_last()[j] == ts[j]);
        }
        lemma_buffer_union_absent(ts.drop_last(), key);
        assert(ts.last() == ts[ts.len() - 1]);
        lemma_or_zero(0);
    }
}

proof fn lemma_image_union_step(ts: Seq<RgImageTransition>, k: int, key: u64)
    requires
        0 <= k < ts.len(),
    ensures
        image_stage_union(ts.take(k + 1), key) == (image_stage_union(ts.take(k), key) | if ts[k].image
            == key {
            ts[k].stage
        } else {
            0
        }),
        image_access_union(ts.take(k + 1), key) == (image_access_union(ts.take(k), key) | if ts[k].image
            == key {
            ts[k].access
        } else {
            0
        }),
        last_image_transition(ts.take(k + 1), key) == if ts[k].image == key {
            Some(ts[k])
        } else {
            last_image_transition(ts.take(k), key)
        },
{
    assert(ts.take(k + 1).drop_last() =~= ts.take(k));
    assert(ts.take(k + 1).last() == ts[k]);
}

proof fn lemma_image_union_absent(ts: Seq<RgImageTransition>, key: u64)
    requires
        forall|j: int| 0 <= j < ts.len() ==> (#[trigger] ts[j]).image != key,
    ensures
        image_stage_union(ts, key) == 0,
        image_access_union(ts, key) == 0,
    decreases ts.len(),
{
    if ts.len() > 0 {
        assert forall|j: int| 0 <= j < ts.drop_last().len() implies (
        #[trigger] ts.drop_last()[j]).image != key by {
            assert(ts.drop_last()[j] == ts[j]);
        }
        lemma_image_union_absent(ts.drop_last(), key);
        assert(ts.last() == ts[ts.len() - 1]);
        lemma_or_zero(0);
    }
}

/// A pass's buffer uses, one entry per buffer, by increasing handle.
pub fn merged_buffer_uses(pass: &RgPass) -> (r: Vec<MergedBufferUse>)
    ensures
        is_buffer_merge(pass.buffers@, r@),
{
    let ghost ts = pass.buffers@;
    let mut m: Vec<MergedBufferUse> = Vec::new();
    let mut k: usize = 0;
    while k < pass.buffers.len()
        invariant
            k <= ts.len(),
            ts == pass.buffers@,
            is_buffer_merge(ts.take(k as int), m@),
        decreases ts.len() - k,
    {
        let t = pass.buffers[k];
        let mut i: usize = 0;
        while i < m.len() && m[i].buffer < t.buffer
            invariant
                i <= m@.len(),
                forall|a: int| 0 <= a < i ==> (#[trigger] m@[a]).buffer < t.buffer,
            decreases m@.len() - i,
        {
            i = i + 1;
        }
        let ghost before = m@;
        let ghost pre = ts.take(k as int);
        let ghost post = ts.take(k + 1);
        proof {
            assert(ts[k as int] == t);
            assert forall|key: u64| #[trigger] uses_buffer(post, key) <==> (uses_buffer(pre, key) || key == t.buffer) by {
                if exists|j: int| 0 <= j < post.len() && (#[trigger] post[j]).buffer == key {
                    let j = choose|j: int| 0 <= j < post.len() && (#[trigger] post[j]).buffer == key;
                    if j < k {
                        assert(pre[j] == post[j]);
                    }
                }
                if exists|j: int| 0 <= j < pre.len() && (#[trigger] pre[j]).buffer == key {
                    let j = choose|j: int| 0 <= j < pre.len() && (#[trigger] pre[j]).buffer == key;
                    assert(pre[j] == post[j]);
                }
                if key == t.buffer {
                    assert(post[k as int] == t);
                }
            }
        }
        if i < m.len() && m[i].buffer == t.buffer {
            let e = m[i];
            m.set(i, MergedBufferUse { buffer: e.buffer, stage: e.stage | t.stage, access: e.access | t.access });
            proof {
                assert forall|a: int| 0 <= a < m@.len() implies (#[trigger] m@[a]).stage
                    == buffer_stage_union(post, m@[a].buffer) && m@[a].access == buffer_access_union(
                    post,
                    m@[a].buffer,
                ) by {
                    lemma_buffer_union_step(ts, k as int, m@[a].buffer);
                    if a != i {
                        assert(m@[a] == before[a]);
                        assert(before[a].buffer != t.buffer);
                        lemma_or_zero(before[a].stage);
                        lemma_or_zero(before[a].access);
                    }
                }
                assert forall|key: u64| #[trigger] merge_has_buffer(m@, key) <==> uses_buffer(post, key) by {
                    assert(merge_has_buffer(before, key) <==> uses_buffer(pre, key));
                    assert(uses_buffer(post, key) <==> (uses_buffer(pre, key) || key == t.buffer));
                    if exists|a: int| 0 <= a < m@.len() && (#[trigger] m@[a]).buffer == key {
                        let a = choose|a: int| 0 <= a < m@.len() && (#[trigger] m@[a]).buffer == key;
                        assert(before[a].buffer == key);
                    }
                    if exists|a: int| 0 <= a < before.len() && (#[trigger] before[a]).buffer == key {
                        let a = choose|a: int| 0 <= a < before.len() && (#[trigger] before[a]).buffer == key;
                        assert(m@[a].buffer == key);
                    }
                    if key == t.buffer {
                        assert(m@[i as int].buffer == key);
                    }
                }
            }
        } else {
            proof {
                assert forall|j: int| 0 <= j < pre.len() implies (#[trigger] pre[j]).buffer != t.buffer by {
                    if pre[j].buffer == t.buffer {
                        assert(uses_buffer(pre, t.buffer));
                        assert(merge_has_buffer(before, t.buffer));
                        let a = choose|a: int| 0 <= a < before.len() && (#[trigger] before[a]).buffer
                            == t.buffer;
                        if a < i {
                        } else if a == i {
                        } else {
                            assert(before[i as int].buffer < before[a].buffer);
                        }
                    }
                }
                lemma_buffer_union_absent(pre, t.buffer);
            }
            m.insert(i, MergedBufferUse { buffer: t.buffer, stage: PIPELINE_STAGE_NONE | t.stage, access: ACCESS_NONE | t.access });
            proof {
                lemma_or_zero(t.stage);
                lemma_or_zero(t.access);
                assert forall|a: int, b: int| 0 <= a < b < m@.len() implies m@[a].buffer < m@[b].buffer by {
                    if a < i && b > i {
                        assert(m@[b] == before[b - 1]);
                        assert(m@[a] == before[a]);
                    } else if a < i && b == i {
                        assert(m@[a] == before[a]);
                    } else if a < i {
                        assert(m@[a] == before[a]);
                        assert(m@[b] == before[b]);
                    } else if a == i {
                        assert(m@[b] == before[b - 1]);
                        assert(before[i as int].buffer >= t.buffer);
                        assert(before[i as int].buffer != t.buffer);
                        if b - 1 > i {
                            assert(before[i as int].buffer < before[b - 1].buffer);
                        }
                    } else {
                        assert(m@[a] == before[a - 1]);
                        assert(m@[b] == before[b - 1]);
                    }
                }
                assert forall|a: int| 0 <= a < m@.len() implies (#[trigger] m@[a]).stage
                    == buffer_stage_union(post, m@[a].buffer) && m@[a].access == buffer_access_union(
                    post,
                    m@[a].buffer,
                ) by {
                    lemma_buffer_union_step(ts, k as int, m@[a].buffer);
                    if a != i {
                        let old_a = if a < i { a } else { a - 1 };
                        assert(m@[a] == before[old_a]);
                        assert(before[old_a].buffer != t.buffer);
                        lemma_or_zero(before[old_a].stage);
                        lemma_or_zero(before[old_a].access);
                    }
                }
                assert forall|key: u64| #[trigger] merge_has_buffer(m@, key) <==> uses_buffer(post, key) by {
                    assert(merge_has_buffer(before, key) <==> uses_buffer(pre, key));
                    assert(uses_buffer(post, key) <==> (uses_buffer(pre, key) || key == t.buffer));
                    if exists|a: int| 0 <= a < m@.len() && (#[trigger] m@[a]).buffer == key {
                        let a = choose|a: int| 0 <= a < m@.len() && (#[trigger] m@[a]).buffer == key;
                        if a < i {
                            assert(before[a].buffer == key);
                        } else if a > i {
                            assert(before[a - 1].buffer == key);
                        }
                    }
                    if exists|a: int| 0 <= a < before.len() && (#[trigger] before[a]).buffer == key {
                        let a = choose|a: int| 0 <= a < before.len() && (#[trigger] before[a]).buffer == key;
                        if a < i {
                            assert(m@[a].buffer == key);
                        } else {
                            assert(m@[a + 1].buffer == key);
                        }
                    }
                    if key == t.buffer {
                        assert(m@[i as int].buffer == key);
                    }
                }
            }
        }
        k = k + 1;
    }
    proof {
        assert(ts.take(k as int) =~= ts);
    }
    m
}

/// A pass's image uses, one entry per image, by increasing handle.
pub fn merged_image_uses(pass: &RgPass) -> (r: Vec<MergedImageUse>)
    ensures
        is_image_merge(pass.images@, r@),
{
    let ghost ts = pass.images@;
    let mut m: Vec<MergedImageUse> = Vec::new();
    let mut k: usize = 0;
    while k < pass.images.len()
        invariant
            k <= ts.len(),
            ts == pass.images@,
            is_image_merge(ts.take(k as int), m@),
        decreases ts.len() - k,
    {
        let t = pass.images[k];
        let mut i: usize = 0;
        while i < m.len() && m[i].image < t.image
            invariant
                i <= m@.len(),
                forall|a: int| 0 <= a < i ==> (#[trigger] m@[a]).image < t.image,
            decreases m@.len() - i,
        {
            i = i + 1;
        }
        let ghost before = m@;
        let ghost pre = ts.take(k as int);
        let ghost post = ts.take(k + 1);
        proof {
            assert(ts[k as int] == t);
            assert forall|key: u64| #[trigger] uses_image(post, key) <==> (uses_image(pre, key) || key == t.image) by {
                if exists|j: int| 0 <= j < post.len() && (#[trigger] post[j]).image == key {
                    let j = choose|j: int| 0 <= j < post.len() && (#[trigger] post[j]).image == key;
                    if j < k {
                        assert(pre[j] == post[j]);
                    }
                }
                if exists|j: int| 0 <= j < pre.len() && (#[trigger] pre[j]).image == key {
                    let j = choose|j: int| 0 <= j < pre.len() && (#[trigger] pre[j]).image == key;
                    assert(pre[j] == post[j]);
                }
                if key == t.image {
                    assert(post[k as int] == t);
                }
            }
        }
        if i < m.len() && m[i].image == t.image {
            let e = m[i];
            m.set(
                i,
                MergedImageUse {
                    image: e.image,
                    subresource_range: t.subresource_range,
                    stage: e.stage | t.stage,
                    access: e.access | t.access,
                    layout: t.layout,
                },
            );
            proof {
                assert forall|a: int| 0 <= a < m@.len() implies {
                    &&& (#[trigger] m@[a]).stage == image_stage_union(post, m@[a].image)
                    &&& m@[a].access == image_access_union(post, m@[a].image)
                    &&& last_image_transition(post, m@[a].image) matches Some(x)
                        && x.subresource_range == m@[a].subresource_range && x.layout
                        == m@[a].layout
                } by {
                    lemma_image_union_step(ts, k as int, m@[a].image);
                    if a != i {
                        assert(m@[a] == before[a]);
                        assert(before[a].image != t.image);
                        lemma_or_zero(before[a].stage);
                        lemma_or_zero(before[a].access);
                    }
                }
                assert forall|key: u64| #[trigger] merge_has_image(m@, key) <==> uses_image(post, key) by {
                    assert(merge_has_image(before, key) <==> uses_image(pre, key));
                    assert(uses_image(post, key) <==> (uses_image(pre, key) || key == t.image));
                    if merge_has_image(m@, key) {
                        let a = choose|a: int| 0 <= a < m@.len() && (#[trigger] m@[a]).image == key;
                        assert(before[a].image == key);
                        assert(merge_has_image(before, key));
                    }
                    if merge_has_image(before, key) {
                        let a = choose|a: int| 0 <= a < before.len() && (#[trigger] before[a]).image == key;
                        assert(m@[a].image == key);
                    }
                }
            }
        } else {
            proof {
                assert forall|j: int| 0 <= j < pre.len() implies (#[trigger] pre[j]).image != t.image by {
                    if pre[j].image == t.image {
                        assert(uses_image(pre, t.image));
                        assert(merge_has_image(before, t.image));
                        let a = choose|a: int| 0 <= a < before.len() && (#[trigger] before[a]).image
                            == t.image;
                        if a > i {
                            assert(before[i as int].image < before[a].image);
                        }
                    }
                }
                lemma_image_union_absent(pre, t.image);
            }
            m.insert(
                i,
                MergedImageUse {
                    image: t.image,
                    subresource_range: t.subresource_range,
                    stage: PIPELINE_STAGE_NONE | t.stage,
                    access: ACCESS_NONE | t.access,
                    layout: t.layout,
                },
            );
            proof {
                lemma_or_zero(t.stage);
                lemma_or_zero(t.access);
                assert forall|a: int, b: int| 0 <= a < b < m@.len() implies m@[a].image < m@[b].image by {
                    if a < i && b > i {
                        assert(m@[b] == before[b - 1]);
                        assert(m@[a] == before[a]);
                    } else if a < i && b == i {
                        assert(m@[a] == before[a]);
                    } else if a < i {
                        assert(m@[a] == before[a]);
                        assert(m@[b] == before[b]);
                    } else if a == i {
                        assert(m@[b] == before[b - 1]);
                        assert(before[i as int].image >= t.image);
                        assert(before[i as int].image != t.image);
                        if b - 1 > i {
                            assert(before[i as int].image < before[b - 1].image);
                        }
                    } else {
                        assert(m@[a] == before[a - 1]);
                        assert(m@[b] == before[b - 1]);
                    }
                }
                assert forall|a: int| 0 <= a < m@.len() implies {
                    &&& (#[trigger] m@[a]).stage == image_stage_union(post, m@[a].image)
                    &&& m@[a].access == image_access_union(post, m@[a].image)
                    &&& last_image_transition(post, m@[a].image) matches Some(x)
                        && x.subresource_range == m@[a].subresource_range && x.layout
                        == m@[a].layout
                } by {
                    lemma_image_union_step(ts, k as int, m@[a].image);
                    if a != i {
                        let old_a = if a < i { a } else { a - 1 };
                        assert(m@[a] == before[old_a]);
                        assert(before[old_a].image != t.image);
                        lemma_or_zero(before[old_a].stage);
                        lemma_or_zero(before[old_a].access);
                    }
                }
                assert forall|key: u64| #[trigger] merge_has_image(m@, key) <==> uses_image(post, key) by {
                    assert(merge_has_image(before, key) <==> uses_image(pre, key));
                    assert(uses_image(post, key) <==> (uses_image(pre, key) || key == t.image));
                    if merge_has_image(m@, key) {
                        let a = choose|a: int| 0 <= a < m@.len() && (#[trigger] m@[a]).image == key;
                        if a < i {
                            assert(before[a].image == key);
                            assert(merge_has_image(before, key));
                        } else if a > i {
                            assert(before[a - 1].image == key);
                            assert(merge_has_image(before, key));
                        }
                    }
                    if merge_has_image(before, key) {
                        let a = choose|a: int| 0 <= a < before.len() && (#[trigger] before[a]).image == key;
                        if a < i {
                            assert(m@[a].image == key);
                        } else {
                            assert(m@[a + 1].image == key);
                        }
                    }
                    if key == t.image {
                        assert(m@[i as int].image == key);
                    }
                }
            }
        }
        k = k + 1;
    }
    proof {
        assert(ts.take(k as int) =~= ts);
    }
    m
}

/// The state of buffer `key`: as recorded, or untouched.
pub open spec fn buffer_prev(states: Map<u64, RgBufferState>, key: u64) -> RgBufferState {
    if states.contains_key(key) {
        states[key]
    } else {
        initial_buffer_state()
    }
}

/// The state of image `key`: as recorded, or untouched.
pub open spec fn image_prev(states: Map<u64, RgImageState>, key: u64) -> RgImageState {
    if states.contains_key(key) {
        states[key]
    } else {
        initial_image_state()
    }
}

/// The barrier a buffer use needs: one when the previous use or this one writes, from the
/// previous use's stages and accesses to this one's.
pub open spec fn buffer_barrier_for(states: Map<u64, RgBufferState>, u: MergedBufferUse) -> Seq<
    MemoryBarrier,
> {
    let prev = buffer_prev(states, u.buffer);
    if prev.was_write || is_write_access(u.access) {
        seq![
            MemoryBarrier {
                src_stage: prev.stage,
                src_access: prev.access,
                dst_stage: u.stage,
                dst_access: u.access,
            },
        ]
    } else {
        Seq::empty()
    }
}

/// The barrier an image use needs: one when the layout changes or the previous use or this
/// one writes.
pub open spec fn image_barrier_for(states: Map<u64, RgImageState>, u: MergedImageUse) -> Seq<
    ImageMemoryBarrier,
> {
    let prev = image_prev(states, u.image);
    if prev.layout != u.layout || prev.was_write || is_write_access(u.access) {
        seq![
            ImageMemoryBarrier {
                src_stage: prev.stage,
                src_access: prev.access,
                dst_stage: u.stage,
                dst_access: u.access,
                old_layout: prev.layout,
                new_layout: u.layout,
                image: u.image,
                subresource_range: u.subresource_range,
            },
        ]
    } else {
        Seq::empty()
    }
}

pub open spec fn buffer_barriers(states: Map<u64, RgBufferState>, uses: Seq<MergedBufferUse>) -> Seq<
    MemoryBarrier,
>
    decreases uses.len(),
{
    if uses.len() == 0 {
        Seq::empty()
    } else {
        buffer_barriers(states, uses.drop_last()) + buffer_barrier_for(states, uses.last())
    }
}

pub open spec fn image_barriers(states: Map<u64, RgImageState>, uses: Seq<MergedImageUse>) -> Seq<
    ImageMemoryBarrier,
>
    decreases uses.len(),
{
    if uses.len() == 0 {
        Seq::empty()
    } else {
        image_barriers(states, uses.drop_last()) + image_barrier_for(states, uses.last())
    }
}

pub open spec fn buffer_state_of(u: MergedBufferUse) -> RgBufferState {
    RgBufferState { stage: u.stage, access: u.access, was_write: is_write_access(u.access) }
}

pub open spec fn image_state_of(u: MergedImageUse) -> RgImageState {
    RgImageState {
        stage: u.stage,
        access: u.access,
        layout: u.layout,
        was_write: is_write_access(u.access),
    }
}

/// The buffer states once the uses have happened.
pub open spec fn buffer_states_after(states: Map<u64, RgBufferState>, uses: Seq<MergedBufferUse>) -> Map<
    u64,
    RgBufferState,
>
    decreases uses.len(),
{
    if uses.len() == 0 {
        states
    } else {
        buffer_states_after(states, uses.drop_last()).insert(uses.last().buffer, buffer_state_of(uses.last()))
    }
}

/// The image states once the uses have happened.
pub open spec fn image_states_after(states: Map<u64, RgImageState>, uses: Seq<MergedImageUse>) -> Map<
    u64,
    RgImageState,
>
    decreases uses.len(),
{
    if uses.len() == 0 {
        states
    } else {
        image_states_after(states, uses.drop_last()).insert(uses.last().image, image_state_of(uses.last()))
    }
}

proof fn lemma_buffer_states_untouched(states: Map<u64, RgBufferState>, uses: Seq<MergedBufferUse>, key: u64)
    requires
        forall|a: int| 0 <= a < uses.len() ==> (#[trigger] uses[a]).buffer != key,
    ensures
        buffer_prev(buffer_states_after(states, uses), key) == buffer_prev(states, key),
    decreases uses.len(),
{
    if uses.len() > 0 {
        assert forall|a: int| 0 <= a < uses.drop_last().len() implies (#[trigger] uses.drop_last()[a]).buffer != key by {
            assert(uses.drop_last()[a] == uses[a]);
        }
        lemma_buffer_states_untouched(states, uses.drop_last(), key);
        assert(uses.last() == uses[uses.len() - 1]);
    }
}

proof fn lemma_image_states_untouched(states: Map<u64, RgImageState>, uses: Seq<MergedImageUse>, key: u64)
    requires
        forall|a: int| 0 <= a < uses.len() ==> (#[trigger] uses[a]).image != key,
    ensures
        image_prev(image_states_after(states, uses), key) == image_prev(states, key),
    decreases uses.len(),
{
    if uses.len() > 0 {
        assert forall|a: int| 0 <= a < uses.drop_last().len() implies (#[trigger] uses.drop_last()[a]).image != key by {
            assert(uses.drop_last()[a] == uses[a]);
        }
        lemma_image_states_untouched(states, uses.drop_last(), key);
        assert(uses.last() == uses[uses.len() - 1]);
    }
}

/// A pass's merged uses, and the barriers that must precede it.
pub struct RgPassBarriers {
    pub buffer_uses: Vec<MergedBufferUse>,
    pub image_uses: Vec<MergedImageUse>,
    pub memory_barriers: Vec<MemoryBarrier>,
    pub image_barriers: Vec<ImageMemoryBarrier>,
}

/// What running `pass` after the uses recorded in `old(states)` takes: a memory barrier
/// for each buffer that was last written or that the pass writes, an image barrier for each
/// image that changes layout, was last written or that the pass writes; the states then
/// record the pass's uses.
pub fn derive_barriers(states: &mut RgStates, pass: &RgPass) -> (r: RgPassBarriers)
    ensures
        is_buffer_merge(pass.buffers@, r.buffer_uses@),
        is_image_merge(pass.images@, r.image_uses@),
        r.memory_barriers@ == buffer_barriers(old(states).buffers@, r.buffer_uses@),
        r.image_barriers@ == image_barriers(old(states).images@, r.image_uses@),
        final(states).buffers@ == buffer_states_after(old(states).buffers@, r.buffer_uses@),
        final(states).images@ == image_states_after(old(states).images@, r.image_uses@),
{
    let buffer_uses = merged_buffer_uses(pass);
    let image_uses = merged_image_uses(pass);
    let ghost b0 = states.buffers@;
    let ghost i0 = states.images@;
    let mut memory_barriers: Vec<MemoryBarrier> = Vec::new();
    let mut k: usize = 0;
    while k < buffer_uses.len()
        invariant
            k <= buffer_uses@.len(),
            is_buffer_merge(pass.buffers@, buffer_uses@),
            states.buffers@ == buffer_states_after(b0, buffer_uses@.take(k as int)),
            states.images@ == i0,
            memory_barriers@ == buffer_barriers(b0, buffer_uses@.take(k as int)),
        decreases buffer_uses@.len() - k,
    {
        let u = buffer_uses[k];
        proof {
            let done = buffer_uses@.take(k as int);
            assert forall|a: int| 0 <= a < done.len() implies (#[trigger] done[a]).buffer != u.buffer by {
                assert(done[a] == buffer_uses@[a]);
                assert(buffer_uses@[a].buffer < buffer_uses@[k as int].buffer);
            }
            lemma_buffer_states_untouched(b0, done, u.buffer);
            assert(buffer_uses@.take(k + 1).drop_last() =~= done);
            assert(buffer_uses@.take(k + 1).last() == u);
        }
        let prev = match states.buffers.get(&u.buffer) {
            Some(p) => *p,
            None => RgBufferState::initial(),
        };
        let cur_write = writes_memory(u.access);
        if prev.was_write || cur_write {
            memory_barriers.push(
                MemoryBarrier {
                    src_stage: prev.stage,
                    src_access: prev.access,
                    dst_stage: u.stage,
                    dst_access: u.access,
                },
            );
        }
        states.buffers.insert(
            u.buffer,
            RgBufferState { stage: u.stage, access: u.access, was_write: cur_write },
        );
        k = k + 1;
    }
    proof {
        assert(buffer_uses@.take(k as int) =~= buffer_uses@);
    }
    let mut image_list: Vec<ImageMemoryBarrier> = Vec::new();
    let mut k: usize = 0;
    while k < image_uses.len()
        invariant
            k <= image_uses@.len(),
            is_image_merge(pass.images@, image_uses@),
            states.images@ == image_states_after(i0, image_uses@.take(k as int)),
            states.buffers@ == buffer_states_after(b0, buffer_uses@),
            image_list@ == image_barriers(i0, image_uses@.take(k as int)),
        decreases image_uses@.len() - k,
    {
        let u = image_uses[k];
        proof {
            let done = image_uses@.take(k as int);
            assert forall|a: int| 0 <= a < done.len() implies (#[trigger] done[a]).image != u.image by {
                assert(done[a] == image_uses@[a]);
                assert(image_uses@[a].image < image_uses@[k as int].image);
            }
            lemma_image_states_untouched(i0, done, u.image);
            assert(image_uses@.take(k + 1).drop_last() =~= done);
            assert(image_uses@.take(k + 1).last() == u);
        }
        let prev = match states.images.get(&u.image) {
            Some(p) => *p,
            None => RgImageState::initial(),
        };
        let cur_write = writes_memory(u.access);
        let layout_change = prev.layout != u.layout;
        if layout_change || prev.was_write || cur_write {
            image_list.push(
                ImageMemoryBarrier {
                    src_stage: prev.stage,
                    src_access: prev.access,
                    dst_stage: u.stage,
                    dst_access: u.access,
                    old_layout: prev.layout,
                    new_layout: u.layout,
                    image: u.image,
                    subresource_range: u.subresource_range,
                },
            );
        }
        states.images.insert(
            u.image,
            RgImageState { stage: u.stage, access: u.access, layout: u.layout, was_write: cur_write },
        );
        k = k + 1;
    }
    proof {
        assert(image_uses@.take(k as int) =~= image_uses@);
    }
    RgPassBarriers { buffer_uses, image_uses, memory_barriers, image_barriers: image_list }
}

/// One pass of a plan: its index, its merged uses and the barriers that precede it.
pub struct RgStep {
    pub pass: usize,
    pub barriers: RgPassBarriers,
}

/// How to run a graph: the passes in order, each with its barriers, and the barrier that
/// hands the presented image over to presentation, if one is needed.
pub struct RgPlan {
    pub steps: Vec<RgStep>,
    pub present_barrier: Option<ImageMemoryBarrier>,
}

pub open spec fn step_passes(steps: Seq<RgStep>) -> Seq<usize> {
    steps.map_values(|s: RgStep| s.pass)
}

/// The buffer and image states once the first `i` steps have run.
pub open spec fn states_before(steps: Seq<RgStep>, i: int) -> (
    Map<u64, RgBufferState>,
    Map<u64, RgImageState>,
)
    decreases i,
{
    if i <= 0 {
        (Map::empty(), Map::empty())
    } else {
        let prev = states_before(steps, i - 1);
        (
            buffer_states_after(prev.0, steps[i - 1].barriers.buffer_uses@),
            image_states_after(prev.1, steps[i - 1].barriers.image_uses@),
        )
    }
}

/// The barrier that moves `image` into the presentation layout, unless it is in it already.
pub open spec fn present_barrier_for(
    images: Map<u64, RgImageState>,
    image: u64,
    subresource_range: ImageSubresourceRange,
) -> Option<ImageMemoryBarrier> {
    let prev = image_prev(images, image);
    if prev.layout != IMAGE_LAYOUT_PRESENT_SRC {
        Some(
            ImageMemoryBarrier {
                src_stage: prev.stage,
                src_access: prev.access,
                dst_stage: PIPELINE_STAGE_BOTTOM_OF_PIPE,
                dst_access: ACCESS_NONE,
                old_layout: prev.layout,
                new_layout: IMAGE_LAYOUT_PRESENT_SRC,
                image,
                subresource_range,
            },
        )
    } else {
        None
    }
}

/// Step `i` of `steps` runs pass `steps[i].pass` of `passes` with the merged uses and the
/// barriers that pass needs after the steps before it.
pub open spec fn step_is_planned(passes: Seq<RgPass>, steps: Seq<RgStep>, i: int) -> bool {
    let st = steps[i];
    let before = states_before(steps, i);
    &&& is_buffer_merge(passes[st.pass as int].buffers@, st.barriers.buffer_uses@)
    &&& is_image_merge(passes[st.pass as int].images@, st.barriers.image_uses@)
    &&& st.barriers.memory_barriers@ == buffer_barriers(before.0, st.barriers.buffer_uses@)
    &&& st.barriers.image_barriers@ == image_barriers(before.1, st.barriers.image_uses@)
}

impl RgContext {
    /// The plan for running the graph: the passes in a dependency-respecting order, the
    /// barriers before each pass given what the passes before it did (every resource starts
    /// untouched), and, when an image is to be presented, the barrier that moves it into
    /// the presentation layout after the last pass.
    pub fn execute_plan(&self, present: Option<(u64, ImageSubresourceRange)>) -> (r: Result<RgPlan, String>)
        requires
            self.wf(),
        ensures
            match r {
                Ok(plan) => {
                    &&& is_topological_order(
                        step_passes(plan.steps@),
                        self.passes().len(),
                        self.dependency_list(),
                    )
                    &&& is_breadth_first_order(step_passes(plan.steps@), self.dependency_list())
                    &&& forall|i: int|
                        0 <= i < plan.steps@.len() ==> step_is_planned(
                            self.passes(),
                            plan.steps@,
                            i,
                        )
                    &&& plan.present_barrier == match present {
                        None => None,
                        Some((image, range)) => present_barrier_for(
                            states_before(plan.steps@, plan.steps@.len() as int).1,
                            image,
                            range,
                        ),
                    }
                },
                Err(_) => false,
            },
    {
        let order = match self.topological_sort() {
            Ok(order) => order,
            Err(e) => {
                return Err(e);
            },
        };
        let mut states = RgStates::new();
        let mut steps: Vec<RgStep> = Vec::new();
        let mut k: usize = 0;
        while k < order.len()
            invariant
                self.wf(),
                k <= order@.len(),
                is_topological_order(order@, self.passes().len(), self.dependency_list()),
                is_breadth_first_order(order@, self.dependency_list()),
                steps@.len() == k,
                forall|j: int| 0 <= j < k ==> (#[trigger] steps@[j]).pass == order@[j],
                forall|j: int| 0 <= j < k ==> step_is_planned(self.passes(), steps@, j),
                states.buffers@ == states_before(steps@, k as int).0,
                states.images@ == states_before(steps@, k as int).1,
            decreases order@.len() - k,
        {
            let p = order[k];
            let ghost before = steps@;
            let barriers = derive_barriers(&mut states, self.pass(p));
            steps.push(RgStep { pass: p, barriers });
            proof {
                assert forall|j: int| 0 <= j <= k implies states_before(steps@, j) == states_before(
                    before,
                    j,
                ) by {
                    lemma_states_before_prefix(before, steps@, j);
                }
                assert forall|j: int| 0 <= j < k + 1 implies step_is_planned(self.passes(), steps@, j) by {
                    if j < k {
                        assert(steps@[j] == before[j]);
                        assert(step_is_planned(self.passes(), before, j));
                    }
                }
            }
            k = k + 1;
        }
        let present_barrier = match present {
            None => None,
            Some((image, range)) => {
                let prev = match states.images.get(&image) {
                    Some(p) => *p,
                    None => RgImageState::initial(),
                };
                if prev.layout != IMAGE_LAYOUT_PRESENT_SRC {
                    Some(
                        ImageMemoryBarrier {
                            src_stage: prev.stage,
                            src_access: prev.access,
                            dst_stage: PIPELINE_STAGE_BOTTOM_OF_PIPE,
                            dst_access: ACCESS_NONE,
                            old_layout: prev.layout,
                            new_layout: IMAGE_LAYOUT_PRESENT_SRC,
                            image,
                            subresource_range: range,
                        },
                    )
                } else {
                    None
                }
            },
        };
        proof {
            assert(step_passes(steps@) =~= order@);
        }
        Ok(RgPlan { steps, present_barrier })
    }
}

/// The states before step `j` depend on the steps before `j` only.
proof fn lemma_states_before_prefix(a: Seq<RgStep>, b: Seq<RgStep>, j: int)
    requires
        0 <= j <= a.len(),
        a.len() <= b.len(),
        forall|i: int| 0 <= i < a.len() ==> a[i] == b[i],
    ensures
        states_before(b, j) == states_before(a, j),
    decreases j,
{
    if j > 0 {
        lemma_states_before_prefix(a, b, j - 1);
        assert(a[j - 1] == b[j - 1]);
    }
}

/// After a pass writes a buffer, the next pass that uses it waits for exactly that write:
/// its barrier goes from the writer's stages and accesses to its own.
pub proof fn law_use_after_write_waits_for_the_writer(
    states: Map<u64, RgBufferState>,
    written: MergedBufferUse,
    next: MergedBufferUse,
)
    requires
        written.buffer == next.buffer,
        is_write_access(written.access),
    ensures
        buffer_barrier_for(buffer_states_after(states, seq![written]), next) == seq![
            MemoryBarrier {
                src_stage: written.stage,
                src_access: written.access,
                dst_stage: next.stage,
                dst_access: next.access,
            },
        ],
{
    assert(seq![written].drop_last() =~= Seq::<MergedBufferUse>::empty());
}

/// Reads after reads need no buffer barrier.
pub proof fn law_read_after_read_needs_no_barrier(
    states: Map<u64, RgBufferState>,
    read: MergedBufferUse,
    next: MergedBufferUse,
)
    requires
        read.buffer == next.buffer,
        !is_write_access(read.access),
        !is_write_access(next.access),
    ensures
        buffer_barrier_for(buffer_states_after(states, seq![read]), next) == Seq::<
            MemoryBarrier,
        >::empty(),
{
    assert(seq![read].drop_last() =~= Seq::<MergedBufferUse>::empty());
}

/// An image used in a new layout always gets a transition from the layout its last use
/// left it in.
pub proof fn law_layout_change_transitions_from_last_layout(
    states: Map<u64, RgImageState>,
    last: MergedImageUse,
    next: MergedImageUse,
)
    requires
        last.image == next.image,
        last.layout != next.layout,
    ensures
        image_barrier_for(image_states_after(states, seq![last]), next).len() == 1,
        image_barrier_for(image_states_after(states, seq![last]), next)[0].old_layout == last.layout,
        image_barrier_for(image_states_after(states, seq![last]), next)[0].new_layout == next.layout,
        image_barrier_for(image_states_after(states, seq![last]), next)[0].src_stage == last.stage,
{
    assert(seq![last].drop_last() =~= Seq::<MergedImageUse>::empty());
}

/// A use that writes a buffer always waits for the buffer's previous use, whatever that use
/// did: it gets exactly one barrier, from the previous use's stages and accesses to its own
/// (for a buffer nothing has used yet, from the top of the pipe with no access).
pub proof fn law_write_waits_for_the_previous_use(states: Map<u64, RgBufferState>, next: MergedBufferUse)
    requires
        is_write_access(next.access),
    ensures
        buffer_barrier_for(states, next) == seq![
            MemoryBarrier {
                src_stage: buffer_prev(states, next.buffer).stage,
                src_access: buffer_prev(states, next.buffer).access,
                dst_stage: next.stage,
                dst_access: next.access,
            },
        ],
        !states.contains_key(next.buffer) ==> buffer_barrier_for(states, next)[0].src_stage
            == PIPELINE_STAGE_TOP_OF_PIPE && buffer_barrier_for(states, next)[0].src_access
            == ACCESS_NONE,
{
}

/// A write after a read of the same buffer waits for that read: its one barrier goes from
/// the reader's stages and accesses to the writer's.
pub proof fn law_write_after_read_waits_for_the_reader(
    states: Map<u64, RgBufferState>,
    read: MergedBufferUse,
    next: MergedBufferUse,
)
    requires
        read.buffer == next.buffer,
        is_write_access(next.access),
    ensures
        buffer_barrier_for(buffer_states_after(states, seq![read]), next) == seq![
            MemoryBarrier {
                src_stage: read.stage,
                src_access: read.access,
                dst_stage: next.stage,
                dst_access: next.access,
            },
        ],
{
    assert(seq![read].drop_last() =~= Seq::<MergedBufferUse>::empty());
    law_write_waits_for_the_previous_use(buffer_states_after(states, seq![read]), next);
}

/// A use that writes an image always gets exactly one barrier from the image's previous use,
/// moving it from the layout that use left it in to its own.
pub proof fn law_image_write_waits_for_the_previous_use(
    states: Map<u64, RgImageState>,
    next: MergedImageUse,
)
    requires
        is_write_access(next.access),
    ensures
        image_barrier_for(states, next).len() == 1,
        image_barrier_for(states, next)[0].src_stage == image_prev(states, next.image).stage,
        image_barrier_for(states, next)[0].src_access == image_prev(states, next.image).access,
        image_barrier_for(states, next)[0].dst_stage == next.stage,
        image_barrier_for(states, next)[0].dst_access == next.access,
        image_barrier_for(states, next)[0].old_layout == image_prev(states, next.image).layout,
        image_barrier_for(states, next)[0].new_layout == next.layout,
{
}

/// Each pass's memory barriers are one per merged use of a buffer that needs one, in the
/// order of the uses: a pass whose every buffer use writes gets one barrier per buffer.
pub proof fn law_writing_pass_gets_a_barrier_per_buffer(
    states: Map<u64, RgBufferState>,
    uses: Seq<MergedBufferUse>,
)
    requires
        forall|i: int| 0 <= i < uses.len() ==> is_write_access(#[trigger] uses[i].access),
    ensures
        buffer_barriers(states, uses).len() == uses.len(),
        forall|i: int|
            0 <= i < uses.len() ==> (#[trigger] buffer_barriers(states, uses)[i]).src_stage
                == buffer_prev(states, uses[i].buffer).stage && buffer_barriers(states, uses)[i].src_access
                == buffer_prev(states, uses[i].buffer).access && buffer_barriers(states, uses)[i].dst_access
                == uses[i].access,
    decreases uses.len(),
{
    if uses.len() > 0 {
        let prev = uses.drop_last();
        assert forall|i: int| 0 <= i < prev.len() implies is_write_access(#[trigger] prev[i].access) by {
            assert(prev[i] == uses[i]);
        }
        law_writing_pass_gets_a_barrier_per_buffer(states, prev);
        law_write_waits_for_the_previous_use(states, uses.last());
        let b = buffer_barriers(states, uses);
        assert forall|i: int|
            0 <= i < uses.len() implies (#[trigger] b[i]).src_stage == buffer_prev(states, uses[i].buffer).stage
                && b[i].src_access == buffer_prev(states, uses[i].buffer).access && b[i].dst_access
                == uses[i].access by {
            if i < prev.len() {
                assert(b[i] == buffer_barriers(states, prev)[i]);
                assert(prev[i] == uses[i]);
            }
        }
    }
}

} // verus!
