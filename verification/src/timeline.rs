//! Queue timelines and what hangs off them: the value each submission waits for and
//! signals, the objects whose destruction waits until the device is done with them, and the
//! rotation through a swapchain's frames in flight.
use vstd::prelude::*;

verus! {

/// The queues work is submitted to.
#[derive(Debug, Clone, Copy, PartialEq, Eq, Structural)]
pub enum QueueType {
    Graphics,
}

/// The last value a queue's timeline semaphore was asked to signal.
pub struct QueueTimeline {
    pub semaphore: u64,
    pub value: u64,
}

impl QueueTimeline {
    /// A timeline on `semaphore` that has signalled nothing yet.
    pub fn new(semaphore: u64) -> (r: Self)
        ensures
            r.semaphore == semaphore,
            r.value == 0,
    {
        QueueTimeline { semaphore, value: 0 }
    }

    /// A submission: it waits for the value signalled last and signals the next one.
    /// Returns `(wait, signal)`.
    pub fn submit(&mut self) -> (r: (u64, u64))
        requires
            old(self).value < u64::MAX,
        ensures
            r == (old(self).value, (old(self).value + 1) as u64),
            final(self).value == old(self).value + 1,
            final(self).semaphore == old(self).semaphore,
    {
        let wait = self.value;
        self.value = self.value + 1;
        (wait, self.value)
    }

    /// A submission after acquiring a swapchain image: it waits for the value signalled
    /// last, if anything was signalled yet, and signals the next one. Returns
    /// `(wait, signal)`.
    pub fn submit_after_acquire(&mut self) -> (r: (Option<u64>, u64))
        requires
            old(self).value < u64::MAX,
        ensures
            r.0 == (if old(self).value > 0 {
                Some(old(self).value)
            } else {
                None
            }),
            r.1 == old(self).value + 1,
            final(self).value == old(self).value + 1,
            final(self).semaphore == old(self).semaphore,
    {
        let wait = if self.value > 0 {
            Some(self.value)
        } else {
            None
        };
        self.value = self.value + 1;
        (wait, self.value)
    }
}

/// Objects waiting to be destroyed, each with the timeline value after which the device no
/// longer uses it, in the order they were retired.
pub struct RetireQueue<T> {
    items: Vec<(u64, T)>,
}

impl<T> RetireQueue<T> {
    pub closed spec fn spec_items(&self) -> Seq<(u64, T)> {
        self.items@
    }

    /// An empty queue.
    pub fn new() -> (r: Self)
        ensures
            r.spec_items() == Seq::<(u64, T)>::empty(),
    {
        RetireQueue { items: Vec::new() }
    }

    /// The number of objects waiting.
    pub fn len(&self) -> (r: usize)
        ensures
            r == self.spec_items().len(),
    {
        self.items.len()
    }

    /// Retires `item`, to be destroyed once the timeline reaches `value`.
    pub fn retire(&mut self, value: u64, item: T)
        ensures
            final(self).spec_items() == old(self).spec_items().push((value, item)),
    {
        self.items.push((value, item));
    }

    /// Takes out, in order, the objects at the front of the queue whose value the timeline
    /// has reached (`completed`); it stops at the first one it has not.
    pub fn collect(&mut self, completed: u64) -> (r: Vec<T>)
        ensures
            r@.len() <= old(self).spec_items().len(),
            forall|i: int| 0 <= i < r@.len() ==> (#[trigger] old(self).spec_items()[i]).0 <= completed,
            forall|i: int| 0 <= i < r@.len() ==> #[trigger] r@[i] == old(self).spec_items()[i].1,
            final(self).spec_items() == old(self).spec_items().skip(r@.len() as int),
            r@.len() < old(self).spec_items().len() ==> old(self).spec_items()[r@.len() as int].0
                > completed,
    {
        let ghost all = self.items@;
        let mut out: Vec<T> = Vec::new();
        while self.items.len() > 0 && self.items[0].0 <= completed
            invariant
                out@.len() <= all.len(),
                self.items@ == all.skip(out@.len() as int),
                forall|i: int| 0 <= i < out@.len() ==> (#[trigger] all[i]).0 <= completed,
                forall|i: int| 0 <= i < out@.len() ==> #[trigger] out@[i] == all[i].1,
            decreases self.items@.len(),
        {
            let ghost n = out@.len();
            let ghost front = self.items@[0];
            let ghost before_out = out@;
            proof {
                assert(all.skip(n as int)[0] == all[n as int]);
                assert(front == all[n as int]);
                assert(front.0 <= completed);
            }
            let (_, item) = self.items.remove(0);
            out.push(item);
            proof {
                assert(item == front.1);
                assert(out@[n as int] == all[n as int].1);
                assert forall|i: int| 0 <= i < out@.len() implies #[trigger] out@[i] == all[i].1 by {
                    if i < n {
                        assert(out@[i] == before_out[i]);
                    }
                }
                assert(self.items@ =~= all.skip(n + 1 as int));
            }
        }
        out
    }
}

/// Every object a collection hands back was retired with a value the timeline had
/// reached, and the objects come back in the order they were retired: what stays in the
/// queue is exactly what followed them.
pub proof fn law_collect_releases_only_completed_in_order<T>(
    before: Seq<(u64, T)>,
    released: Seq<T>,
    after: Seq<(u64, T)>,
    completed: u64,
)
    requires
        released.len() <= before.len(),
        forall|i: int| 0 <= i < released.len() ==> (#[trigger] before[i]).0 <= completed,
        forall|i: int| 0 <= i < released.len() ==> #[trigger] released[i] == before[i].1,
        after == before.skip(released.len() as int),
    ensures
        before.take(released.len() as int).map_values(|e: (u64, T)| e.1) == released,
        before == before.take(released.len() as int) + after,
{
    assert(before.take(released.len() as int).map_values(|e: (u64, T)| e.1) =~= released);
    assert(before =~= before.take(released.len() as int) + after);
}

/// The frames in flight of a swapchain, used in turn.
pub struct FrameRing {
    current: usize,
    count: usize,
}

impl FrameRing {
    pub closed spec fn spec_current(&self) -> usize {
        self.current
    }

    pub closed spec fn spec_count(&self) -> usize {
        self.count
    }

    /// A ring of `count` frames, starting at the first.
    pub fn new(count: usize) -> (r: Self)
        requires
            count > 0,
        ensures
            r.spec_current() == 0,
            r.spec_count() == count,
    {
        FrameRing { current: 0, count }
    }

    /// The frame in use.
    pub fn current(&self) -> (r: usize)
        ensures
            r == self.spec_current(),
    {
        self.current
    }

    /// Moves on to the next frame, wrapping around after the last.
    pub fn advance(&mut self)
        requires
            old(self).spec_count() > 0,
            old(self).spec_current() < old(self).spec_count(),
        ensures
            final(self).spec_count() == old(self).spec_count(),
            final(self).spec_current() == (old(self).spec_current() + 1) % (old(self).spec_count() as int),
            final(self).spec_current() < final(self).spec_count(),
    {
        self.current = (self.current + 1) % self.count;
    }
}

/// A swapchain image handed out by an acquire, by its index in the swapchain.
pub struct SwapchainImage {
    image_index: u32,
}

impl SwapchainImage {
    pub closed spec fn spec_index(&self) -> u32 {
        self.image_index
    }

    /// The swapchain image with index `image_index`.
    pub fn new(image_index: u32) -> (r: Self)
        ensures
            r.spec_index() == image_index,
    {
        SwapchainImage { image_index }
    }

    /// Its index in the swapchain.
    pub fn image_index(&self) -> (r: u32)
        ensures
            r == self.spec_index(),
    {
        self.image_index
    }
}

/// How a device image is created. It carries nothing yet.
#[derive(Clone)]
pub struct DeviceImageCreateInfo {}

} // verus!
