//! The decisions of a render loop around a swapchain: when the swapchain is rebuilt, whether
//! an acquired image is rendered and presented, and when the next frame slot comes up.
use vstd::prelude::*;
use crate::timeline::FrameRing;

verus! {

/// What acquiring a swapchain image came to: an image (the swapchain may no longer match
/// the surface exactly), or a swapchain that is out of date and cannot be used.
#[derive(Debug, Clone, Copy, PartialEq, Eq, Structural)]
pub enum AcquireOutcome {
    Acquired { image_index: u32, suboptimal: bool },
    OutOfDate,
}

/// What presenting an image came to.
#[derive(Debug, Clone, Copy, PartialEq, Eq, Structural)]
pub enum PresentOutcome {
    Presented { suboptimal: bool },
    OutOfDate,
}

/// What a frame starts with.
#[derive(Debug, Clone, Copy, PartialEq, Eq, Structural)]
pub enum FrameStart {
    /// Rebuild the swapchain and end the frame there.
    RecreateSwapchain,
    /// Acquire the next swapchain image.
    Acquire,
}

/// What follows an acquire.
#[derive(Debug, Clone, Copy, PartialEq, Eq, Structural)]
pub enum AfterAcquire {
    /// Render into the image with this index, then present it.
    Render(u32),
    /// Rebuild the swapchain and end the frame there.
    RecreateSwapchain,
}

/// The state a render loop carries between frames: whether the swapchain is due to be
/// rebuilt, and which of the frames in flight is the current one.
pub struct FramePacer {
    resize_requested: bool,
    frames: FrameRing,
}

impl FramePacer {
    /// Whether the swapchain is due to be rebuilt at the start of the next frame.
    pub closed spec fn spec_resize_requested(&self) -> bool {
        self.resize_requested
    }

    /// The current frame slot.
    pub closed spec fn spec_current_frame(&self) -> usize {
        self.frames.spec_current()
    }

    /// The number of frames in flight.
    pub closed spec fn spec_frames_in_flight(&self) -> usize {
        self.frames.spec_count()
    }

    pub open spec fn wf(&self) -> bool {
        &&& self.spec_frames_in_flight() > 0
        &&& self.spec_current_frame() < self.spec_frames_in_flight()
    }

    /// A loop over `frames_in_flight` frame slots, starting at the first, with no rebuild
    /// pending.
    pub fn new(frames_in_flight: usize) -> (r: Self)
        requires
            frames_in_flight > 0,
        ensures
            r.wf(),
            !r.spec_resize_requested(),
            r.spec_current_frame() == 0,
            r.spec_frames_in_flight() == frames_in_flight,
    {
        FramePacer { resize_requested: false, frames: FrameRing::new(frames_in_flight) }
    }

    /// Whether the swapchain is due to be rebuilt.
    pub fn resize_requested(&self) -> (r: bool)
        ensures
            r == self.spec_resize_requested(),
    {
        self.resize_requested
    }

    /// The current frame slot.
    pub fn current_frame(&self) -> (r: usize)
        ensures
            r == self.spec_current_frame(),
    {
        self.frames.current()
    }

    /// The window changed size: the swapchain is rebuilt at the start of the next frame.
    pub fn resized(&mut self)
        ensures
            final(self).spec_resize_requested(),
            final(self).spec_current_frame() == old(self).spec_current_frame(),
            final(self).spec_frames_in_flight() == old(self).spec_frames_in_flight(),
    {
        self.resize_requested = true;
    }

    /// The start of a frame: a pending rebuild is carried out (and the request dropped)
    /// instead of drawing; otherwise the next image is acquired.
    pub fn begin_frame(&mut self) -> (r: FrameStart)
        ensures
            r == (if old(self).spec_resize_requested() {
                FrameStart::RecreateSwapchain
            } else {
                FrameStart::Acquire
            }),
            !final(self).spec_resize_requested(),
            final(self).spec_current_frame() == old(self).spec_current_frame(),
            final(self).spec_frames_in_flight() == old(self).spec_frames_in_flight(),
    {
        if self.resize_requested {
            self.resize_requested = false;
            FrameStart::RecreateSwapchain
        } else {
            FrameStart::Acquire
        }
    }

    /// After an acquire: an image is rendered (a suboptimal one also asks for a rebuild
    /// next frame); an out-of-date swapchain is rebuilt at once and the frame ends.
    pub fn acquired(&mut self, outcome: AcquireOutcome) -> (r: AfterAcquire)
        ensures
            final(self).spec_current_frame() == old(self).spec_current_frame(),
            final(self).spec_frames_in_flight() == old(self).spec_frames_in_flight(),
            match outcome {
                AcquireOutcome::Acquired { image_index, suboptimal } => {
                    &&& r == AfterAcquire::Render(image_index)
                    &&& final(self).spec_resize_requested() == (old(self).spec_resize_requested()
                        || suboptimal)
                },
                AcquireOutcome::OutOfDate => {
                    &&& r == AfterAcquire::RecreateSwapchain
                    &&& final(self).spec_resize_requested() == old(self).spec_resize_requested()
                },
            },
    {
        match outcome {
            AcquireOutcome::Acquired { image_index, suboptimal } => {
                if suboptimal {
                    self.resize_requested = true;
                }
                AfterAcquire::Render(image_index)
            },
            AcquireOutcome::OutOfDate => AfterAcquire::RecreateSwapchain,
        }
    }

    /// After a present: a suboptimal or out-of-date swapchain is rebuilt next frame, and the
    /// next frame slot comes up.
    pub fn presented(&mut self, outcome: PresentOutcome)
        requires
            old(self).wf(),
        ensures
            final(self).wf(),
            final(self).spec_resize_requested() == (old(self).spec_resize_requested()
                || outcome != (PresentOutcome::Presented { suboptimal: false })),
            final(self).spec_frames_in_flight() == old(self).spec_frames_in_flight(),
            final(self).spec_current_frame() == (old(self).spec_current_frame() + 1) % (old(
                self,
            ).spec_frames_in_flight() as int),
    {
        match outcome {
            PresentOutcome::Presented { suboptimal } => {
                if suboptimal {
                    self.resize_requested = true;
                }
            },
            PresentOutcome::OutOfDate => {
                self.resize_requested = true;
            },
        }
        self.frames.advance();
    }
}

/// Whether the swapchain can be rebuilt for a window of this size: not while it is
/// minimized to nothing.
pub fn can_recreate_swapchain(width: u32, height: u32) -> (r: bool)
    ensures
        r == (width != 0 && height != 0),
{
    width != 0 && height != 0
}

} // verus!
