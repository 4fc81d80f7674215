//! The render graph: passes declare how they use buffers and images, and the graph derives
//! the dependencies between passes from those declarations (read after write, write after
//! write, write after read).
use vstd::prelude::*;
use crate::topo::{edges_within, is_breadth_first_order, is_topological_order, topological_order};
use crate::vk_flags::{
    ACCESS_COLOR_ATTACHMENT_WRITE,
    ACCESS_DEPTH_STENCIL_ATTACHMENT_WRITE,
    ACCESS_SHADER_READ,
    ACCESS_SHADER_WRITE,
    ACCESS_TRANSFER_READ,
    ACCESS_TRANSFER_WRITE,
    IMAGE_LAYOUT_COLOR_ATTACHMENT_OPTIMAL,
    IMAGE_LAYOUT_DEPTH_STENCIL_ATTACHMENT_OPTIMAL,
    IMAGE_LAYOUT_SHADER_READ_ONLY_OPTIMAL,
    PIPELINE_STAGE_COLOR_ATTACHMENT_OUTPUT,
    PIPELINE_STAGE_EARLY_FRAGMENT_TESTS,
    PIPELINE_STAGE_FRAGMENT_SHADER,
    PIPELINE_STAGE_LATE_FRAGMENT_TESTS,
    PIPELINE_STAGE_TRANSFER,
};

verus! {

/// How a pass uses a resource.
#[derive(Clone, Copy, PartialEq, Eq, Structural, Debug)]
pub enum RgAccessKind {
    Read,
    Write,
    ReadWrite,
}

impl RgAccessKind {
    pub open spec fn writes(self) -> bool {
        self is Write || self is ReadWrite
    }

    pub open spec fn reads(self) -> bool {
        self is Read || self is ReadWrite
    }

    /// Whether this use writes the resource.
    pub fn does_write(&self) -> (r: bool)
        ensures
            r == self.writes(),
    {
        match self {
            RgAccessKind::Read => false,
            _ => true,
        }
    }
}

/// A resource of the graph, by its raw Vulkan handle.
#[derive(Clone, Copy, PartialEq, Eq, Structural, Debug)]
pub enum RgResource {
    Buffer(u64),
    Image(u64),
}

/// The part of an image a transition covers (`VkImageSubresourceRange`).
#[derive(Clone, Copy, PartialEq, Eq, Structural, Debug)]
pub struct ImageSubresourceRange {
    pub aspect_mask: u32,
    pub base_mip_level: u32,
    pub level_count: u32,
    pub base_array_layer: u32,
    pub layer_count: u32,
}

/// How a pass uses a buffer: at which stages, with which accesses.
#[derive(Clone, Copy, PartialEq, Eq, Structural, Debug)]
pub struct RgBufferTransition {
    pub buffer: u64,
    pub kind: RgAccessKind,
    pub stage: u64,
    pub access: u64,
}

/// How a pass uses an image: at which stages, with which accesses, in which layout.
#[derive(Clone, Copy, PartialEq, Eq, Structural, Debug)]
pub struct RgImageTransition {
    pub image: u64,
    pub subresource_range: ImageSubresourceRange,
    pub kind: RgAccessKind,
    pub stage: u64,
    pub access: u64,
    pub layout: i32,
}

/// A registered pass: its name and the resources it uses. The work it records lives with
/// the caller, under the pass's index.
pub struct RgPass {
    pub name: String,
    pub buffers: Vec<RgBufferTransition>,
    pub images: Vec<RgImageTransition>,
}

/// One use of a resource by a pass: the pass's index, the resource and the kind of use.
pub type RgUse = (usize, RgResource, RgAccessKind);

pub open spec fn buffer_use(pass: usize, t: RgBufferTransition) -> RgUse {
    (pass, RgResource::Buffer(t.buffer), t.kind)
}

pub open spec fn image_use(pass: usize, t: RgImageTransition) -> RgUse {
    (pass, RgResource::Image(t.image), t.kind)
}

/// The uses a pass declares: its buffers, then its images, in the order given.
pub open spec fn pass_uses(pass: usize, p: RgPass) -> Seq<RgUse> {
    p.buffers@.map_values(|t: RgBufferTransition| buffer_use(pass, t)) + p.images@.map_values(
        |t: RgImageTransition| image_use(pass, t),
    )
}

/// Every use declared by the passes, pass by pass in the order they were enqueued.
pub open spec fn graph_uses(passes: Seq<RgPass>) -> Seq<RgUse>
    decreases passes.len(),
{
    if passes.len() == 0 {
        Seq::empty()
    } else {
        graph_uses(passes.drop_last()) + pass_uses((passes.len() - 1) as usize, passes.last())
    }
}

/// No use strictly between positions `i` and `j` writes resource `r`.
pub open spec fn no_write_between(uses: Seq<RgUse>, r: RgResource, i: int, j: int) -> bool {
    forall|k: int| i < k < j ==> (#[trigger] uses[k]).1 != r || !uses[k].2.writes()
}

/// Use `i` and the later use `j` are a hazard: they belong to different passes, touch the
/// same resource, at least one of them writes it, and nothing wrote it in between.
pub open spec fn hazard(uses: Seq<RgUse>, i: int, j: int) -> bool {
    &&& 0 <= i < j < uses.len()
    &&& uses[i].1 == uses[j].1
    &&& uses[i].0 != uses[j].0
    &&& (uses[i].2.writes() || uses[j].2.writes())
    &&& no_write_between(uses, uses[i].1, i, j)
}

/// Pass `q` must run after pass `p`: some use of `p` and a later use of `q` are a hazard.
pub open spec fn depends_on(uses: Seq<RgUse>, p: usize, q: usize) -> bool {
    exists|i: int, j: int| #[trigger] hazard(uses, i, j) && uses[i].0 == p && uses[j].0 == q
}

/// Pass `p` wrote `r` last.
pub open spec fn last_writer(uses: Seq<RgUse>, r: RgResource, p: usize) -> bool {
    exists|i: int|
        0 <= i < uses.len() && #[trigger] uses[i].1 == r && uses[i].2.writes() && no_write_between(
            uses,
            r,
            i,
            uses.len() as int,
        ) && uses[i].0 == p
}

pub open spec fn ever_written(uses: Seq<RgUse>, r: RgResource) -> bool {
    exists|i: int| 0 <= i < uses.len() && #[trigger] uses[i].1 == r && uses[i].2.writes()
}

/// Pass `p` read `r` (and only read it) after the last write of `r`.
pub open spec fn live_reader(uses: Seq<RgUse>, r: RgResource, p: usize) -> bool {
    exists|i: int|
        0 <= i < uses.len() && #[trigger] uses[i].1 == r && uses[i].2 is Read && no_write_between(
            uses,
            r,
            i,
            uses.len() as int,
        ) && uses[i].0 == p
}

/// What the graph remembers of one resource: the pass that wrote it last, and the passes
/// that read it since.
struct RgResourceState {
    resource: RgResource,
    writer: Option<usize>,
    readers: Vec<usize>,
}

spec fn state_matches(s: RgResourceState, uses: Seq<RgUse>) -> bool {
    &&& match s.writer {
        Some(p) => last_writer(uses, s.resource, p),
        None => !ever_written(uses, s.resource),
    }
    &&& forall|p: usize| live_reader(uses, s.resource, p) <==> s.readers@.contains(p)
}

spec fn resources_match(resources: Seq<RgResourceState>, uses: Seq<RgUse>) -> bool {
    &&& forall|a: int, b: int|
        0 <= a < b < resources.len() ==> (#[trigger] resources[a]).resource
            != (#[trigger] resources[b]).resource
    &&& forall|a: int| 0 <= a < resources.len() ==> state_matches(#[trigger] resources[a], uses)
    &&& forall|i: int|
        0 <= i < uses.len() ==> exists|a: int|
            0 <= a < resources.len() && (#[trigger] resources[a]).resource == (
            #[trigger] uses[i]).1
}

spec fn edges_match(edges: Seq<(usize, usize)>, uses: Seq<RgUse>) -> bool {
    &&& edges.no_duplicates()
    &&& forall|p: usize, q: usize| #[trigger] edges.contains((p, q)) <==> depends_on(uses, p, q)
}

/// The passes registered so far and the dependencies between them.
pub struct RgContext {
    passes: Vec<RgPass>,
    resources: Vec<RgResourceState>,
    edges: Vec<(usize, usize)>,
}

/// Uses in earlier positions belong to earlier (or the same) passes, and every use belongs
/// to one of the passes.
pub proof fn lemma_graph_uses_ordered(passes: Seq<RgPass>)
    requires
        passes.len() <= usize::MAX,
    ensures
        forall|i: int| 0 <= i < graph_uses(passes).len() ==> #[trigger] graph_uses(passes)[i].0
            < passes.len(),
        forall|i: int, j: int|
            0 <= i < j < graph_uses(passes).len() ==> #[trigger] graph_uses(passes)[i].0
                <= #[trigger] graph_uses(passes)[j].0,
    decreases passes.len(),
{
    if passes.len() > 0 {
        let prev = passes.drop_last();
        lemma_graph_uses_ordered(prev);
        let n = (passes.len() - 1) as usize;
        let pu = pass_uses(n, passes.last());
        let u = graph_uses(passes);
        assert(u == graph_uses(prev) + pu);
        assert forall|i: int| 0 <= i < pu.len() implies #[trigger] pu[i].0 == n by {
            let nb = passes.last().buffers@.len();
            if i < nb {
            } else {
            }
        }
        assert forall|i: int| 0 <= i < u.len() implies #[trigger] u[i].0 < passes.len() by {
            if i >= graph_uses(prev).len() {
                assert(u[i] == pu[i - graph_uses(prev).len()]);
            }
        }
        assert forall|i: int, j: int| 0 <= i < j < u.len() implies #[trigger] u[i].0
            <= #[trigger] u[j].0 by {
            let m = graph_uses(prev).len() as int;
            if j >= m {
                assert(u[j] == pu[j - m]);
                assert(pu[j - m].0 == n);
                if i >= m {
                    assert(u[i] == pu[i - m]);
                    assert(pu[i - m].0 == n);
                } else {
                    assert(u[i] == graph_uses(prev)[i]);
                    assert(graph_uses(prev)[i].0 < prev.len());
                }
            } else {
                assert(u[i] == graph_uses(prev)[i]);
                assert(u[j] == graph_uses(prev)[j]);
                assert(graph_uses(prev)[i].0 <= graph_uses(prev)[j].0);
            }
        }
    }
}

/// A dependency always points from an earlier pass to a later one.
pub proof fn lemma_depends_forward(passes: Seq<RgPass>, p: usize, q: usize)
    requires
        passes.len() <= usize::MAX,
        depends_on(graph_uses(passes), p, q),
    ensures
        p < q < passes.len(),
{
    let u = graph_uses(passes);
    lemma_graph_uses_ordered(passes);
    let (i, j) = choose|i: int, j: int| #[trigger] hazard(u, i, j) && u[i].0 == p && u[j].0 == q;
    assert(u[i].0 <= u[j].0);
}

/// Hazards among the old uses are untouched by a new use.
proof fn lemma_hazard_prefix(uses: Seq<RgUse>, x: RgUse, i: int, j: int)
    requires
        j < uses.len(),
    ensures
        hazard(uses.push(x), i, j) == hazard(uses, i, j),
{
    let u2 = uses.push(x);
    if 0 <= i < j {
        assert(u2[i] == uses[i]);
        assert(u2[j] == uses[j]);
        if no_write_between(uses, uses[i].1, i, j) {
            assert forall|k: int| i < k < j implies (#[trigger] u2[k]).1 != uses[i].1
                || !u2[k].2.writes() by {
                assert(u2[k] == uses[k]);
            }
        }
        if no_write_between(u2, uses[i].1, i, j) {
            assert forall|k: int| i < k < j implies (#[trigger] uses[k]).1 != uses[i].1
                || !uses[k].2.writes() by {
                assert(u2[k] == uses[k]);
            }
        }
    }
}

/// `no_write_between` up to the old end carries over to the extended sequence.
proof fn lemma_nwb_push(uses: Seq<RgUse>, x: RgUse, r: RgResource, i: int)
    requires
        0 <= i,
    ensures
        no_write_between(uses.push(x), r, i, uses.len() as int) == no_write_between(
            uses,
            r,
            i,
            uses.len() as int,
        ),
        no_write_between(uses.push(x), r, i, uses.len() + 1 as int) == (no_write_between(
            uses,
            r,
            i,
            uses.len() as int,
        ) && (i >= uses.len() || x.1 != r || !x.2.writes())),
{
    let u2 = uses.push(x);
    let n = uses.len() as int;
    if no_write_between(uses, r, i, n) {
        assert forall|k: int| i < k < n implies (#[trigger] u2[k]).1 != r || !u2[k].2.writes() by {
            assert(u2[k] == uses[k]);
        }
    }
    if no_write_between(u2, r, i, n) {
        assert forall|k: int| i < k < n implies (#[trigger] uses[k]).1 != r
            || !uses[k].2.writes() by {
            assert(u2[k] == uses[k]);
        }
    }
    if no_write_between(u2, r, i, n + 1) {
        assert forall|k: int| i < k < n implies (#[trigger] uses[k]).1 != r
            || !uses[k].2.writes() by {
            assert(u2[k] == uses[k]);
        }
        if i < n {
            assert(u2[n] == x);
        }
    }
    if no_write_between(uses, r, i, n) && (i >= n || x.1 != r || !x.2.writes()) {
        assert forall|k: int| i < k < n + 1 implies (#[trigger] u2[k]).1 != r
            || !u2[k].2.writes() by {
            if k < n {
                assert(u2[k] == uses[k]);
            }
        }
    }
}

/// The dependencies after one more use by pass `q` of resource `r`: the old ones, plus an
/// edge from the last writer of `r`, plus (if the new use writes) edges from the passes
/// that read `r` since that write.
proof fn lemma_depends_push(uses: Seq<RgUse>, q: usize, r: RgResource, kind: RgAccessKind, p: usize)
    ensures
        depends_on(uses.push((q, r, kind)), p, q) <==> depends_on(uses, p, q) || (p != q && (
        last_writer(uses, r, p) || (kind.writes() && live_reader(uses, r, p)))),
{
    let x = (q, r, kind);
    let u2 = uses.push(x);
    let n = uses.len() as int;
    if depends_on(u2, p, q) {
        let (i, j) = choose|i: int, j: int| #[trigger] hazard(u2, i, j) && u2[i].0 == p && u2[j].0 == q;
        if j < n {
            lemma_hazard_prefix(uses, x, i, j);
            assert(hazard(uses, i, j) && uses[i].0 == p && uses[j].0 == q);
        } else {
            assert(j == n);
            assert(u2[j] == x);
            assert(u2[i] == uses[i]);
            lemma_nwb_push(uses, x, r, i);
            if uses[i].2.writes() {
                assert(last_writer(uses, r, p));
            } else {
                assert(uses[i].2 is Read);
                assert(live_reader(uses, r, p));
            }
        }
    }
    if depends_on(uses, p, q) {
        let (i, j) = choose|i: int, j: int| #[trigger] hazard(uses, i, j) && uses[i].0 == p && uses[j].0 == q;
        lemma_hazard_prefix(uses, x, i, j);
        assert(hazard(u2, i, j) && u2[i].0 == p && u2[j].0 == q);
    }
    if p != q && last_writer(uses, r, p) {
        let i = choose|i: int|
            0 <= i < uses.len() && #[trigger] uses[i].1 == r && uses[i].2.writes()
                && no_write_between(uses, r, i, uses.len() as int) && uses[i].0 == p;
        lemma_nwb_push(uses, x, r, i);
        assert(u2[i] == uses[i]);
        assert(u2[n] == x);
        assert(hazard(u2, i, n));
    }
    if p != q && kind.writes() && live_reader(uses, r, p) {
        let i = choose|i: int|
            0 <= i < uses.len() && #[trigger] uses[i].1 == r && uses[i].2 is Read
                && no_write_between(uses, r, i, uses.len() as int) && uses[i].0 == p;
        lemma_nwb_push(uses, x, r, i);
        assert(u2[i] == uses[i]);
        assert(u2[n] == x);
        assert(hazard(u2, i, n));
    }
}

/// A new use never adds dependencies into passes other than its own.
proof fn lemma_depends_push_other(uses: Seq<RgUse>, x: RgUse, p: usize, q: usize)
    requires
        q != x.0,
    ensures
        depends_on(uses.push(x), p, q) <==> depends_on(uses, p, q),
{
    let u2 = uses.push(x);
    let n = uses.len() as int;
    if depends_on(u2, p, q) {
        let (i, j) = choose|i: int, j: int| #[trigger] hazard(u2, i, j) && u2[i].0 == p && u2[j].0 == q;
        if j == n {
            assert(u2[j] == x);
        }
        lemma_hazard_prefix(uses, x, i, j);
        assert(hazard(uses, i, j) && uses[i].0 == p && uses[j].0 == q);
    }
    if depends_on(uses, p, q) {
        let (i, j) = choose|i: int, j: int| #[trigger] hazard(uses, i, j) && uses[i].0 == p && uses[j].0 == q;
        lemma_hazard_prefix(uses, x, i, j);
        assert(hazard(u2, i, j) && u2[i].0 == p && u2[j].0 == q);
    }
}

/// What a new use does to the record of another resource: nothing.
proof fn lemma_state_other(s: RgResourceState, uses: Seq<RgUse>, x: RgUse)
    requires
        state_matches(s, uses),
        x.1 != s.resource,
    ensures
        state_matches(s, uses.push(x)),
{
    let u2 = uses.push(x);
    let n = uses.len() as int;
    let r = s.resource;
    match s.writer {
        Some(p) => {
            let i = choose|i: int|
                0 <= i < uses.len() && #[trigger] uses[i].1 == r && uses[i].2.writes()
                    && no_write_between(uses, r, i, uses.len() as int) && uses[i].0 == p;
            lemma_nwb_push(uses, x, r, i);
            assert(u2[i] == uses[i]);
            assert(last_writer(u2, r, p));
        },
        None => {
            if ever_written(u2, r) {
                let i = choose|i: int| 0 <= i < u2.len() && #[trigger] u2[i].1 == r && u2[i].2.writes();
                if i < n {
                    assert(u2[i] == uses[i]);
                } else {
                    assert(u2[i] == x);
                }
            }
        },
    }
    assert forall|p: usize| live_reader(u2, r, p) <==> s.readers@.contains(p) by {
        if live_reader(u2, r, p) {
            let i = choose|i: int|
                0 <= i < u2.len() && #[trigger] u2[i].1 == r && u2[i].2 is Read
                    && no_write_between(u2, r, i, u2.len() as int) && u2[i].0 == p;
            if i == n {
                assert(u2[i] == x);
            }
            lemma_nwb_push(uses, x, r, i);
            assert(u2[i] == uses[i]);
            assert(live_reader(uses, r, p));
        }
        if live_reader(uses, r, p) {
            let i = choose|i: int|
                0 <= i < uses.len() && #[trigger] uses[i].1 == r && uses[i].2 is Read
                    && no_write_between(uses, r, i, uses.len() as int) && uses[i].0 == p;
            lemma_nwb_push(uses, x, r, i);
            assert(u2[i] == uses[i]);
            assert(live_reader(u2, r, p));
        }
    }
}

/// The last writer of a resource is unique.
proof fn lemma_last_writer_unique(uses: Seq<RgUse>, r: RgResource, p: usize, i: int)
    requires
        last_writer(uses, r, p),
        0 <= i < uses.len(),
        uses[i].1 == r,
        uses[i].2.writes(),
        no_write_between(uses, r, i, uses.len() as int),
    ensures
        uses[i].0 == p,
{
    let i2 = choose|i2: int|
        0 <= i2 < uses.len() && #[trigger] uses[i2].1 == r && uses[i2].2.writes()
            && no_write_between(uses, r, i2, uses.len() as int) && uses[i2].0 == p;
    if i < i2 {
        assert(uses[i2].1 == r);
    } else if i2 < i {
        assert(uses[i].1 == r);
    }
}

/// A vector holding the items of `s`, in order.
fn copy_slice<T: Copy>(s: &[T]) -> (r: Vec<T>)
    ensures
        r@ == s@,
{
    let mut r: Vec<T> = Vec::new();
    let mut k: usize = 0;
    while k < s.len()
        invariant
            k <= s@.len(),
            r@ == s@.take(k as int),
        decreases s@.len() - k,
    {
        r.push(s[k]);
        k = k + 1;
        proof {
            assert(r@ =~= s@.take(k as int));
        }
    }
    proof {
        assert(s@.take(k as int) =~= s@);
    }
    r
}

/// Whether `v` occurs among the first `k + 1` items: among the first `k`, or at `k`.
proof fn lemma_take_contains(s: Seq<usize>, k: int, v: usize)
    requires
        0 <= k < s.len(),
    ensures
        s.take(k + 1).contains(v) <==> (s.take(k).contains(v) || s[k] == v),
{
    if s.take(k).contains(v) {
        let b = choose|b: int| 0 <= b < k && #[trigger] s.take(k)[b] == v;
        assert(s.take(k + 1)[b] == v);
    }
    if s.take(k + 1).contains(v) {
        let b = choose|b: int| 0 <= b < k + 1 && #[trigger] s.take(k + 1)[b] == v;
        if b < k {
            assert(s.take(k)[b] == v);
        }
    }
    if s[k] == v {
        assert(s.take(k + 1)[k] == v);
    }
}

/// The record of the resource a new use touches, after that use: the pass becomes the
/// last writer with no readers (a write), or joins the readers (a read).
proof fn lemma_used_record(
    s0: RgResourceState,
    uses: Seq<RgUse>,
    pass_id: usize,
    kind: RgAccessKind,
    s: RgResourceState,
)
    requires
        state_matches(s0, uses),
        s.resource == s0.resource,
        kind.writes() ==> s.writer == Some(pass_id) && s.readers@ == Seq::<usize>::empty(),
        !kind.writes() ==> s.writer == s0.writer && s.readers@ == s0.readers@.push(pass_id),
    ensures
        state_matches(s, uses.push((pass_id, s0.resource, kind))),
{
    let resource = s0.resource;
    let x = (pass_id, resource, kind);
    let u2 = uses.push(x);
    let n = uses.len() as int;
    assert(u2[n] == x);
    if kind.writes() {
        assert(no_write_between(u2, resource, n, n + 1));
        assert(u2[n].1 == resource && u2[n].2.writes() && u2[n].0 == pass_id);
        assert(last_writer(u2, resource, pass_id));
        assert forall|p: usize| live_reader(u2, resource, p) <==> s.readers@.contains(p) by {
            if live_reader(u2, resource, p) {
                let i = choose|i: int|
                    0 <= i < u2.len() && #[trigger] u2[i].1 == resource && u2[i].2 is Read
                        && no_write_between(u2, resource, i, u2.len() as int) && u2[i].0 == p;
                lemma_nwb_push(uses, x, resource, i);
                if i == n {
                    assert(u2[i] == x);
                }
            }
        }
    } else {
        match s0.writer {
            Some(w) => {
                let i = choose|i: int|
                    0 <= i < uses.len() && #[trigger] uses[i].1 == resource && uses[i].2.writes()
                        && no_write_between(uses, resource, i, uses.len() as int) && uses[i].0 == w;
                lemma_nwb_push(uses, x, resource, i);
                assert(u2[i] == uses[i]);
                assert(last_writer(u2, resource, w));
            },
            None => {
                if ever_written(u2, resource) {
                    let i = choose|i: int|
                        0 <= i < u2.len() && #[trigger] u2[i].1 == resource && u2[i].2.writes();
                    if i < n {
                        assert(u2[i] == uses[i]);
                    }
                }
            },
        }
        assert forall|p: usize| live_reader(u2, resource, p) <==> s.readers@.contains(p) by {
            lemma_read_record(s0, uses, pass_id, kind, s, p);
        }
    }
}

proof fn lemma_read_record(
    s0: RgResourceState,
    uses: Seq<RgUse>,
    pass_id: usize,
    kind: RgAccessKind,
    s: RgResourceState,
    p: usize,
)
    requires
        state_matches(s0, uses),
        !kind.writes(),
        s.readers@ == s0.readers@.push(pass_id),
    ensures
        live_reader(uses.push((pass_id, s0.resource, kind)), s0.resource, p) <==> s.readers@.contains(p),
{
    let resource = s0.resource;
    let x = (pass_id, resource, kind);
    let u2 = uses.push(x);
    let n = uses.len() as int;
    let m = s0.readers@.len() as int;
    assert(u2[n] == x);
    assert(s.readers@[m] == pass_id);
    if live_reader(u2, resource, p) {
        let i = choose|i: int|
            0 <= i < u2.len() && #[trigger] u2[i].1 == resource && u2[i].2 is Read
                && no_write_between(u2, resource, i, u2.len() as int) && u2[i].0 == p;
        if i < n {
            lemma_nwb_push(uses, x, resource, i);
            assert(u2[i] == uses[i]);
            assert(uses[i].1 == resource);
            assert(live_reader(uses, resource, p));
            assert(s0.readers@.contains(p));
            let b = choose|b: int| 0 <= b < m && s0.readers@[b] == p;
            assert(s.readers@[b] == p);
            assert(s.readers@.contains(p));
        } else {
            assert(p == pass_id);
            assert(s.readers@.contains(p));
        }
    }
    if s.readers@.contains(p) {
        let b = choose|b: int| 0 <= b < s.readers@.len() && s.readers@[b] == p;
        if b < m {
            assert(s0.readers@[b] == p);
            assert(s0.readers@.contains(p));
            assert(live_reader(uses, resource, p));
            let i = choose|i: int|
                0 <= i < uses.len() && #[trigger] uses[i].1 == resource && uses[i].2 is Read
                    && no_write_between(uses, resource, i, uses.len() as int) && uses[i].0 == p;
            lemma_nwb_push(uses, x, resource, i);
            assert(u2[i] == uses[i]);
            assert(u2[i].1 == resource);
            assert(live_reader(u2, resource, p));
        } else {
            assert(p == pass_id);
            assert(no_write_between(u2, resource, n, n + 1));
            assert(u2[n].1 == resource);
            assert(live_reader(u2, resource, p));
        }
    }
}

/// The records after a new use: the touched one (at `a`) already updated, the others as
/// they were; they stay distinct and cover every use.
proof fn lemma_resources_update(
    res0: Seq<RgResourceState>,
    uses: Seq<RgUse>,
    x: RgUse,
    a: int,
    res1: Seq<RgResourceState>,
)
    requires
        resources_match(res0, uses),
        0 <= a < res0.len(),
        res0[a].resource == x.1,
        res1.len() == res0.len(),
        res1[a].resource == x.1,
        state_matches(res1[a], uses.push(x)),
        forall|c: int| 0 <= c < res0.len() && c != a ==> res1[c] == res0[c],
    ensures
        resources_match(res1, uses.push(x)),
{
    let u2 = uses.push(x);
    let n = uses.len() as int;
    assert forall|c: int| 0 <= c < res1.len() implies state_matches(#[trigger] res1[c], u2) by {
        if c != a {
            assert(res1[c] == res0[c]);
            assert(state_matches(res0[c], uses));
            assert(res0[c].resource != res0[a].resource);
            lemma_state_other(res0[c], uses, x);
        }
    }
    assert forall|c: int, b: int| 0 <= c < b < res1.len() implies (#[trigger] res1[c]).resource
        != (#[trigger] res1[b]).resource by {
        assert(res1[c].resource == res0[c].resource);
        assert(res1[b].resource == res0[b].resource);
        assert(res0[c].resource != res0[b].resource);
    }
    assert forall|i: int| 0 <= i < u2.len() implies exists|c: int|
        0 <= c < res1.len() && (#[trigger] res1[c]).resource == (#[trigger] u2[i]).1 by {
        if i < n {
            assert(u2[i] == uses[i]);
            let c = choose|c: int| 0 <= c < res0.len() && (#[trigger] res0[c]).resource == (
            #[trigger] uses[i]).1;
            assert(res1[c].resource == res0[c].resource);
        } else {
            assert(u2[i] == x);
            assert(res1[a].resource == x.1);
        }
    }
}

/// The dependencies after a new use, given the edges that were added for it.
proof fn lemma_edges_update(
    uses: Seq<RgUse>,
    pass_id: usize,
    resource: RgResource,
    kind: RgAccessKind,
    s0: RgResourceState,
    edges0: Seq<(usize, usize)>,
    edges1: Seq<(usize, usize)>,
)
    requires
        edges_match(edges0, uses),
        state_matches(s0, uses),
        s0.resource == resource,
        edges1.no_duplicates(),
        forall|e: (usize, usize)| #[trigger] edges1.contains(e) <==> (edges0.contains(e) || (e.1
            == pass_id && e.0 != pass_id && (s0.writer == Some(e.0) || (kind.writes()
            && s0.readers@.contains(e.0))))),
    ensures
        edges_match(edges1, uses.push((pass_id, resource, kind))),
{
    let x = (pass_id, resource, kind);
    let u2 = uses.push(x);
    assert forall|p: usize, q: usize| #[trigger] edges1.contains((p, q)) <==> depends_on(u2, p, q) by {
        if q == pass_id {
            lemma_depends_push(uses, pass_id, resource, kind, p);
            if p != q && last_writer(uses, resource, p) {
                let i = choose|i: int|
                    0 <= i < uses.len() && #[trigger] uses[i].1 == resource && uses[i].2.writes()
                        && no_write_between(uses, resource, i, uses.len() as int) && uses[i].0 == p;
                match s0.writer {
                    Some(w) => {
                        lemma_last_writer_unique(uses, resource, w, i);
                    },
                    None => {
                    },
                }
            }
            if edges1.contains((p, q)) && !edges0.contains((p, q)) {
                if s0.writer == Some(p) {
                    assert(last_writer(uses, resource, p));
                } else {
                    assert(live_reader(uses, resource, p));
                }
            }
        } else {
            lemma_depends_push_other(uses, x, p, q);
        }
    }
}

impl RgContext {
    /// The passes registered so far, in the order they were enqueued.
    pub closed spec fn passes(&self) -> Seq<RgPass> {
        self.passes@
    }

    /// The dependencies found so far: `(p, q)` means pass `q` must run after pass `p`.
    pub closed spec fn dependencies(&self) -> Set<(usize, usize)> {
        self.edges@.to_set()
    }

    /// The dependency list, one entry per dependency.
    pub closed spec fn dependency_list(&self) -> Seq<(usize, usize)> {
        self.edges@
    }

    pub closed spec fn wf(&self) -> bool {
        &&& self.passes@.len() <= usize::MAX
        &&& resources_match(self.resources@, graph_uses(self.passes@))
        &&& edges_match(self.edges@, graph_uses(self.passes@))
    }

    /// The dependency list holds each dependency once, and exactly the pairs of passes
    /// linked by a hazard.
    pub proof fn lemma_dependencies(&self)
        requires
            self.wf(),
        ensures
            self.dependency_list().no_duplicates(),
            forall|p: usize, q: usize| #[trigger] self.dependency_list().contains((p, q))
                <==> depends_on(graph_uses(self.passes()), p, q),
            forall|p: usize, q: usize| #[trigger] self.dependencies().contains((p, q))
                <==> depends_on(graph_uses(self.passes()), p, q),
    {
        assert forall|p: usize, q: usize| #[trigger] self.dependencies().contains((p, q))
            <==> self.dependency_list().contains((p, q)) by {
        }
    }

    /// Every dependency runs from an earlier pass to a later one: a pass never waits for a
    /// pass enqueued after it.
    pub proof fn law_dependencies_point_forward(&self)
        requires
            self.wf(),
        ensures
            forall|p: usize, q: usize| #[trigger] self.dependencies().contains((p, q)) ==> p < q
                < self.passes().len(),
    {
        self.lemma_dependencies();
        assert forall|p: usize, q: usize| #[trigger] self.dependencies().contains((p, q)) implies p
            < q < self.passes().len() by {
            lemma_depends_forward(self.passes(), p, q);
        }
    }

    /// An order in which to run the passes so that every pass runs after the passes it
    /// depends on. The passes are taken breadth first, a pass joining the queue once all
    /// the passes it depends on are taken; a pass's dependents are looked at by increasing
    /// index. A graph built by `enqueue_pass` has no cycle, so an order always exists.
    pub fn topological_sort(&self) -> (r: Result<Vec<usize>, String>)
        requires
            self.wf(),
        ensures
            match r {
                Ok(order) => is_topological_order(
                    order@,
                    self.passes().len(),
                    self.dependency_list(),
                ) && is_breadth_first_order(order@, self.dependency_list()),
                Err(_) => false,
            },
    {
        let n = self.passes.len();
        proof {
            self.lemma_dependencies();
            self.law_dependencies_point_forward();
            assert forall|e: int| 0 <= e < self.edges@.len() implies (#[trigger] self.edges@[e]).0
                < n && self.edges@[e].1 < n by {
                let (p, q) = self.edges@[e];
                assert(self.dependencies().contains((p, q)));
            }
            // Running the passes in the order they were enqueued respects every dependency.
            let o = Seq::new(n as nat, |i: int| i as usize);
            assert forall|i: int, j: int| 0 <= i <= j < o.len() implies !self.edges@.contains(
                (#[trigger] o[j], #[trigger] o[i]),
            ) by {
                if self.edges@.contains((o[j], o[i])) {
                    assert(self.dependencies().contains((o[j], o[i])));
                }
            }
            assert(is_topological_order(o, n as nat, self.edges@));
        }
        topological_order(n, self.edges.as_slice())
    }

    /// An empty graph.
    pub fn new() -> (r: Self)
        ensures
            r.wf(),
            r.passes() == Seq::<RgPass>::empty(),
            r.dependencies() == Set::<(usize, usize)>::empty(),
    {
        let r = RgContext { passes: Vec::new(), resources: Vec::new(), edges: Vec::new() };
        proof {
            assert(graph_uses(r.passes@) == Seq::<RgUse>::empty());
            assert(r.edges@.to_set() =~= Set::<(usize, usize)>::empty());
        }
        r
    }

    /// The number of passes registered so far.
    pub fn pass_count(&self) -> (r: usize)
        ensures
            r == self.passes().len(),
    {
        self.passes.len()
    }

    /// The registered pass with index `i`.
    pub fn pass(&self, i: usize) -> (r: &RgPass)
        requires
            i < self.passes().len(),
        ensures
            *r == self.passes()[i as int],
    {
        &self.passes[i]
    }

    /// The dependencies, each once, in the order they were found.
    pub fn dependency_pairs(&self) -> (r: Vec<(usize, usize)>)
        ensures
            r@ == self.dependency_list(),
    {
        let mut r: Vec<(usize, usize)> = Vec::new();
        let mut k: usize = 0;
        while k < self.edges.len()
            invariant
                k <= self.edges@.len(),
                r@ == self.edges@.take(k as int),
            decreases self.edges@.len() - k,
        {
            r.push(self.edges[k]);
            k = k + 1;
            proof {
                assert(r@ =~= self.edges@.take(k as int));
            }
        }
        proof {
            assert(self.edges@.take(k as int) =~= self.edges@);
        }
        r
    }

    fn find_resource(&self, resource: RgResource) -> (r: Option<usize>)
        ensures
            match r {
                Some(a) => a < self.resources@.len() && self.resources@[a as int].resource
                    == resource,
                None => forall|a: int|
                    0 <= a < self.resources@.len() ==> (#[trigger] self.resources@[a]).resource
                        != resource,
            },
    {
        let mut a: usize = 0;
        while a < self.resources.len()
            invariant
                a <= self.resources@.len(),
                forall|b: int| 0 <= b < a ==> (#[trigger] self.resources@[b]).resource != resource,
            decreases self.resources@.len() - a,
        {
            if self.resources[a].resource == resource {
                return Some(a);
            }
            a = a + 1;
        }
        None
    }

    /// Records that pass `to` must run after pass `from` (a pass never waits for itself).
    fn add_edge(&mut self, from: usize, to: usize)
        requires
            old(self).edges@.no_duplicates(),
        ensures
            final(self).edges@.no_duplicates(),
            forall|e: (usize, usize)| #[trigger] final(self).edges@.contains(e) <==> (old(
                self,
            ).edges@.contains(e) || (e == (from, to) && from != to)),
            final(self).passes == old(self).passes,
            final(self).resources == old(self).resources,
    {
        if from != to {
            let mut k: usize = 0;
            while k < self.edges.len()
                invariant
                    k <= self.edges@.len(),
                    *self == *old(self),
                    self.edges@.no_duplicates(),
                    forall|b: int| 0 <= b < k ==> #[trigger] self.edges@[b] != (from, to),
                decreases self.edges@.len() - k,
            {
                let e = self.edges[k];
                if e.0 == from && e.1 == to {
                    return;
                }
                k = k + 1;
            }
            let ghost before = self.edges@;
            self.edges.push((from, to));
            proof {
                assert forall|e: (usize, usize)| #[trigger] self.edges@.contains(e) <==> (
                before.contains(e) || e == (from, to)) by {
                    if self.edges@.contains(e) {
                        let b = choose|b: int| 0 <= b < self.edges@.len() && self.edges@[b] == e;
                        if b < before.len() {
                            assert(before[b] == e);
                        }
                    }
                    if before.contains(e) {
                        let b = choose|b: int| 0 <= b < before.len() && before[b] == e;
                        assert(self.edges@[b] == e);
                    }
                    if e == (from, to) {
                        assert(self.edges@[before.len() as int] == e);
                    }
                }
                assert forall|a: int, b: int|
                    0 <= a < self.edges@.len() && 0 <= b < self.edges@.len() && a != b
                        implies self.edges@[a] != self.edges@[b] by {
                    if a < before.len() && b < before.len() {
                        assert(before[a] == self.edges@[a]);
                        assert(before[b] == self.edges@[b]);
                    }
                }
            }
        }
    }

    /// Records one more use, by pass `pass_id`, of `resource`, and the dependencies it
    /// brings: after the last writer of the resource, and (for a write) after the passes
    /// that read it since.
    fn version_use(
        &mut self,
        Ghost(uses): Ghost<Seq<RgUse>>,
        pass_id: usize,
        resource: RgResource,
        kind: RgAccessKind,
    )
        requires
            resources_match(old(self).resources@, uses),
            edges_match(old(self).edges@, uses),
            forall|i: int| 0 <= i < uses.len() ==> #[trigger] uses[i].0 <= pass_id,
        ensures
            resources_match(final(self).resources@, uses.push((pass_id, resource, kind))),
            edges_match(final(self).edges@, uses.push((pass_id, resource, kind))),
            final(self).passes == old(self).passes,
    {
        let x: Ghost<RgUse> = Ghost((pass_id, resource, kind));
        let ghost u2 = uses.push(x@);
        let a = match self.find_resource(resource) {
            Some(a) => a,
            None => {
                proof {
                    assert forall|i: int| 0 <= i < uses.len() implies #[trigger] uses[i].1
                        != resource by {
                        let b = choose|b: int|
                            0 <= b < self.resources@.len() && (#[trigger] self.resources@[b]).resource
                                == uses[i].1;
                        assert(self.resources@[b].resource != resource);
                    }
                }
                let ghost before = self.resources@;
                self.resources.push(
                    RgResourceState { resource, writer: None, readers: Vec::new() },
                );
                proof {
                    let s = self.resources@[before.len() as int];
                    assert(self.resources@[before.len() as int] == s);
                    assert(!ever_written(uses, resource));
                    assert forall|p: usize| live_reader(uses, resource, p) <==> s.readers@.contains(
                        p,
                    ) by {
                        if live_reader(uses, resource, p) {
                            let i = choose|i: int|
                                0 <= i < uses.len() && #[trigger] uses[i].1 == resource
                                    && uses[i].2 is Read && no_write_between(
                                    uses,
                                    resource,
                                    i,
                                    uses.len() as int,
                                ) && uses[i].0 == p;
                        }
                    }
                    assert forall|c: int, b: int|
                        0 <= c < b < self.resources@.len() implies (#[trigger] self.resources@[c]).resource
                            != (#[trigger] self.resources@[b]).resource by {
                        if b < before.len() {
                            assert(self.resources@[c] == before[c]);
                            assert(self.resources@[b] == before[b]);
                        } else {
                            assert(self.resources@[c] == before[c]);
                        }
                    }
                    assert forall|c: int| 0 <= c < self.resources@.len() implies state_matches(
                        #[trigger] self.resources@[c],
                        uses,
                    ) by {
                        if c < before.len() {
                            assert(self.resources@[c] == before[c]);
                        }
                    }
                    assert forall|i: int| 0 <= i < uses.len() implies exists|c: int|
                        0 <= c < self.resources@.len() && (#[trigger] self.resources@[c]).resource
                            == (#[trigger] uses[i]).1 by {
                        let c = choose|c: int|
                            0 <= c < before.len() && (#[trigger] before[c]).resource == uses[i].1;
                        assert(self.resources@[c] == before[c]);
                    }
                }
                self.resources.len() - 1
            },
        };
        let ghost res0 = self.resources@;
        let ghost edges0 = self.edges@;
        let writer = self.resources[a].writer;
        let mut readers: Vec<usize> = Vec::new();
        let mut k: usize = 0;
        while k < self.resources[a].readers.len()
            invariant
                a < self.resources@.len(),
                self.resources@ == res0,
                k <= self.resources@[a as int].readers@.len(),
                readers@ == self.resources@[a as int].readers@.take(k as int),
            decreases self.resources@[a as int].readers@.len() - k,
        {
            readers.push(self.resources[a].readers[k]);
            k = k + 1;
            proof {
                assert(readers@ =~= self.resources@[a as int].readers@.take(k as int));
            }
        }
        proof {
            assert(readers@ =~= res0[a as int].readers@);
        }
        if let Some(w) = writer {
            self.add_edge(w, pass_id);
        }
        let ghost edges1 = self.edges@;
        proof {
            assert forall|e: (usize, usize)| #[trigger] edges1.contains(e) <==> (edges0.contains(e)
                || (e.1 == pass_id && e.0 != pass_id && writer == Some(e.0))) by {
            }
        }
        let writes = kind.does_write();
        if writes {
            let mut k: usize = 0;
            while k < readers.len()
                invariant
                    k <= readers@.len(),
                    self.edges@.no_duplicates(),
                    self.resources@ == res0,
                    self.passes == old(self).passes,
                    forall|e: (usize, usize)| #[trigger] self.edges@.contains(e) <==> (
                    edges1.contains(e) || (e.1 == pass_id && e.0 != pass_id
                        && readers@.take(k as int).contains(e.0))),
                decreases readers@.len() - k,
            {
                self.add_edge(readers[k], pass_id);
                proof {
                    assert forall|e: (usize, usize)| #[trigger] self.edges@.contains(e) <==> (
                    edges1.contains(e) || (e.1 == pass_id && e.0 != pass_id
                        && readers@.take(k + 1).contains(e.0))) by {
                        lemma_take_contains(readers@, k as int, e.0);
                    }
                }
                k = k + 1;
            }
            proof {
                assert(readers@.take(k as int) =~= readers@);
            }
            self.resources.set(
                a,
                RgResourceState { resource, writer: Some(pass_id), readers: Vec::new() },
            );
        } else {
            let mut new_readers = readers;
            new_readers.push(pass_id);
            self.resources.set(a, RgResourceState { resource, writer, readers: new_readers });
        }
        proof {
            let s0 = res0[a as int];
            lemma_used_record(s0, uses, pass_id, kind, self.resources@[a as int]);
            lemma_resources_update(res0, uses, x@, a as int, self.resources@);
            lemma_edges_update(uses, pass_id, resource, kind, s0, edges0, self.edges@);
        }
    }

    /// Registers a pass that uses `buffers` and `images`, and adds the dependencies its
    /// uses bring (read after write, write after write, write after read). A use of a resource
    /// that the pass itself used before never makes it wait for itself.
    pub fn enqueue_pass(&mut self, name: &str, buffers: &[RgBufferTransition], images: &[RgImageTransition])
        requires
            old(self).wf(),
            old(self).passes().len() < usize::MAX,
        ensures
            final(self).wf(),
            final(self).passes().len() == old(self).passes().len() + 1,
            final(self).passes().drop_last() == old(self).passes(),
            final(self).passes().last().name@ == name@,
            final(self).passes().last().buffers@ == buffers@,
            final(self).passes().last().images@ == images@,
            forall|p: usize, q: usize| #[trigger] final(self).dependencies().contains((p, q))
                <==> depends_on(graph_uses(final(self).passes()), p, q),
    {
        let pass_id = self.passes.len();
        let ghost base = graph_uses(self.passes@);
        proof {
            lemma_graph_uses_ordered(self.passes@);
        }
        let ghost bu = buffers@.map_values(|t: RgBufferTransition| buffer_use(pass_id, t));
        let ghost iu = images@.map_values(|t: RgImageTransition| image_use(pass_id, t));
        let mut k: usize = 0;
        while k < buffers.len()
            invariant
                k <= buffers@.len(),
                pass_id == self.passes@.len(),
                self.passes@ == old(self).passes@,
                base == graph_uses(self.passes@),
                forall|i: int| 0 <= i < base.len() ==> #[trigger] base[i].0 < pass_id,
                bu == buffers@.map_values(|t: RgBufferTransition| buffer_use(pass_id, t)),
                resources_match(self.resources@, base + bu.take(k as int)),
                edges_match(self.edges@, base + bu.take(k as int)),
            decreases buffers@.len() - k,
        {
            let t = buffers[k];
            proof {
                let cur = base + bu.take(k as int);
                assert forall|i: int| 0 <= i < cur.len() implies #[trigger] cur[i].0 <= pass_id by {
                    if i >= base.len() {
                        assert(cur[i] == bu[i - base.len()]);
                    }
                }
                assert(cur.push((pass_id, RgResource::Buffer(t.buffer), t.kind)) =~= base
                    + bu.take(k + 1));
            }
            self.version_use(
                Ghost(base + bu.take(k as int)),
                pass_id,
                RgResource::Buffer(t.buffer),
                t.kind,
            );
            k = k + 1;
        }
        proof {
            assert(bu.take(k as int) =~= bu);
        }
        let mut k: usize = 0;
        while k < images.len()
            invariant
                k <= images@.len(),
                pass_id == self.passes@.len(),
                self.passes@ == old(self).passes@,
                base == graph_uses(self.passes@),
                forall|i: int| 0 <= i < base.len() ==> #[trigger] base[i].0 < pass_id,
                bu == buffers@.map_values(|t: RgBufferTransition| buffer_use(pass_id, t)),
                iu == images@.map_values(|t: RgImageTransition| image_use(pass_id, t)),
                resources_match(self.resources@, base + bu + iu.take(k as int)),
                edges_match(self.edges@, base + bu + iu.take(k as int)),
            decreases images@.len() - k,
        {
            let t = images[k];
            proof {
                let cur = base + bu + iu.take(k as int);
                assert forall|i: int| 0 <= i < cur.len() implies #[trigger] cur[i].0 <= pass_id by {
                    if i >= base.len() + bu.len() {
                        assert(cur[i] == iu[i - base.len() - bu.len()]);
                    } else if i >= base.len() {
                        assert(cur[i] == bu[i - base.len()]);
                    }
                }
                assert(cur.push((pass_id, RgResource::Image(t.image), t.kind)) =~= base + bu
                    + iu.take(k + 1));
            }
            self.version_use(
                Ghost(base + bu + iu.take(k as int)),
                pass_id,
                RgResource::Image(t.image),
                t.kind,
            );
            k = k + 1;
        }
        proof {
            assert(iu.take(k as int) =~= iu);
        }
        let pass = RgPass { name: name.to_string(), buffers: copy_slice(buffers), images: copy_slice(images) };
        let ghost old_passes = self.passes@;
        self.passes.push(pass);
        proof {
            assert(self.passes@.drop_last() =~= old_passes);
            assert(graph_uses(self.passes@) == graph_uses(old_passes) + pass_uses(pass_id, pass));
            assert(pass_uses(pass_id, pass) =~= bu + iu);
            assert(base + bu + iu =~= graph_uses(self.passes@));
            assert forall|p: usize, q: usize| #[trigger] self.dependencies().contains((p, q))
                <==> depends_on(graph_uses(self.passes()), p, q) by {
                assert(self.dependencies().contains((p, q)) == self.edges@.contains((p, q)));
            }
        }
    }
}

/// An image sampled by fragment shaders.
pub fn sampled_fragment(image: u64, subresource_range: ImageSubresourceRange) -> (r: RgImageTransition)
    ensures
        r == (RgImageTransition {
            image,
            subresource_range,
            kind: RgAccessKind::Read,
            stage: PIPELINE_STAGE_FRAGMENT_SHADER,
            access: ACCESS_SHADER_READ,
            layout: IMAGE_LAYOUT_SHADER_READ_ONLY_OPTIMAL,
        }),
{
    RgImageTransition {
        image,
        subresource_range,
        kind: RgAccessKind::Read,
        stage: PIPELINE_STAGE_FRAGMENT_SHADER,
        access: ACCESS_SHADER_READ,
        layout: IMAGE_LAYOUT_SHADER_READ_ONLY_OPTIMAL,
    }
}

/// An image rendered to as a color attachment.
pub fn color_attachment(image: u64, subresource_range: ImageSubresourceRange) -> (r: RgImageTransition)
    ensures
        r == (RgImageTransition {
            image,
            subresource_range,
            kind: RgAccessKind::Write,
            stage: PIPELINE_STAGE_COLOR_ATTACHMENT_OUTPUT,
            access: ACCESS_COLOR_ATTACHMENT_WRITE,
            layout: IMAGE_LAYOUT_COLOR_ATTACHMENT_OPTIMAL,
        }),
{
    RgImageTransition {
        image,
        subresource_range,
        kind: RgAccessKind::Write,
        stage: PIPELINE_STAGE_COLOR_ATTACHMENT_OUTPUT,
        access: ACCESS_COLOR_ATTACHMENT_WRITE,
        layout: IMAGE_LAYOUT_COLOR_ATTACHMENT_OPTIMAL,
    }
}

/// An image used as the depth attachment, by the early and late fragment tests.
pub fn depth_attachment(image: u64, subresource_range: ImageSubresourceRange) -> (r: RgImageTransition)
    ensures
        r == (RgImageTransition {
            image,
            subresource_range,
            kind: RgAccessKind::Write,
            stage: PIPELINE_STAGE_EARLY_FRAGMENT_TESTS | PIPELINE_STAGE_LATE_FRAGMENT_TESTS,
            access: ACCESS_DEPTH_STENCIL_ATTACHMENT_WRITE,
            layout: IMAGE_LAYOUT_DEPTH_STENCIL_ATTACHMENT_OPTIMAL,
        }),
{
    RgImageTransition {
        image,
        subresource_range,
        kind: RgAccessKind::Write,
        stage: PIPELINE_STAGE_EARLY_FRAGMENT_TESTS | PIPELINE_STAGE_LATE_FRAGMENT_TESTS,
        access: ACCESS_DEPTH_STENCIL_ATTACHMENT_WRITE,
        layout: IMAGE_LAYOUT_DEPTH_STENCIL_ATTACHMENT_OPTIMAL,
    }
}

/// A buffer read by a transfer command.
pub fn buffer_transfer_read(buffer: u64) -> (r: RgBufferTransition)
    ensures
        r == (RgBufferTransition {
            buffer,
            kind: RgAccessKind::Read,
            stage: PIPELINE_STAGE_TRANSFER,
            access: ACCESS_TRANSFER_READ,
        }),
{
    RgBufferTransition {
        buffer,
        kind: RgAccessKind::Read,
        stage: PIPELINE_STAGE_TRANSFER,
        access: ACCESS_TRANSFER_READ,
    }
}

/// A buffer written by a transfer command.
pub fn buffer_transfer_write(buffer: u64) -> (r: RgBufferTransition)
    ensures
        r == (RgBufferTransition {
            buffer,
            kind: RgAccessKind::Write,
            stage: PIPELINE_STAGE_TRANSFER,
            access: ACCESS_TRANSFER_WRITE,
        }),
{
    RgBufferTransition {
        buffer,
        kind: RgAccessKind::Write,
        stage: PIPELINE_STAGE_TRANSFER,
        access: ACCESS_TRANSFER_WRITE,
    }
}

/// A constant buffer read by shaders at `stage`.
pub fn constant_buffer_read(buffer: u64, stage: u64) -> (r: RgBufferTransition)
    ensures
        r == (RgBufferTransition { buffer, kind: RgAccessKind::Read, stage, access: ACCESS_SHADER_READ }),
{
    RgBufferTransition { buffer, kind: RgAccessKind::Read, stage, access: ACCESS_SHADER_READ }
}

/// A storage buffer read by shaders at `stage`.
pub fn storage_buffer_read(buffer: u64, stage: u64) -> (r: RgBufferTransition)
    ensures
        r == (RgBufferTransition { buffer, kind: RgAccessKind::Read, stage, access: ACCESS_SHADER_READ }),
{
    RgBufferTransition { buffer, kind: RgAccessKind::Read, stage, access: ACCESS_SHADER_READ }
}

/// A storage buffer read and written by shaders at `stage`.
pub fn storage_buffer_read_write(buffer: u64, stage: u64) -> (r: RgBufferTransition)
    ensures
        r == (RgBufferTransition {
            buffer,
            kind: RgAccessKind::ReadWrite,
            stage,
            access: ACCESS_SHADER_READ | ACCESS_SHADER_WRITE,
        }),
{
    RgBufferTransition {
        buffer,
        kind: RgAccessKind::ReadWrite,
        stage,
        access: ACCESS_SHADER_READ | ACCESS_SHADER_WRITE,
    }
}

} // verus!
