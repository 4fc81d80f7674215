use rhi::frame_loop::{
    AcquireOutcome, AfterAcquire, FrameStart, FramePacer, PresentOutcome, can_recreate_swapchain,
};

#[test]
fn a_resize_rebuilds_the_swapchain_at_the_next_frame_only() {
    let mut pacer = FramePacer::new(2);
    assert_eq!(pacer.begin_frame(), FrameStart::Acquire);
    pacer.resized();
    assert!(pacer.resize_requested());
    assert_eq!(pacer.begin_frame(), FrameStart::RecreateSwapchain);
    assert!(!pacer.resize_requested());
    assert_eq!(pacer.begin_frame(), FrameStart::Acquire);
    assert_eq!(pacer.current_frame(), 0);
}

#[test]
fn an_out_of_date_acquire_rebuilds_without_advancing() {
    let mut pacer = FramePacer::new(2);
    assert_eq!(pacer.acquired(AcquireOutcome::OutOfDate), AfterAcquire::RecreateSwapchain);
    assert!(!pacer.resize_requested());
    assert_eq!(pacer.current_frame(), 0);
}

#[test]
fn a_suboptimal_image_is_still_drawn_then_rebuilt() {
    let mut pacer = FramePacer::new(2);
    let after = pacer.acquired(AcquireOutcome::Acquired { image_index: 3, suboptimal: true });
    assert_eq!(after, AfterAcquire::Render(3));
    assert!(pacer.resize_requested());
}

#[test]
fn presenting_advances_the_frame_slot_and_notes_a_stale_swapchain() {
    let mut pacer = FramePacer::new(2);
    pacer.presented(PresentOutcome::Presented { suboptimal: false });
    assert_eq!(pacer.current_frame(), 1);
    assert!(!pacer.resize_requested());
    pacer.presented(PresentOutcome::OutOfDate);
    assert_eq!(pacer.current_frame(), 0);
    assert!(pacer.resize_requested());
    let mut other = FramePacer::new(3);
    other.presented(PresentOutcome::Presented { suboptimal: true });
    assert!(other.resize_requested());
}

#[test]
fn a_minimized_window_keeps_its_swapchain() {
    assert!(!can_recreate_swapchain(0, 600));
    assert!(!can_recreate_swapchain(800, 0));
    assert!(can_recreate_swapchain(800, 600));
}
