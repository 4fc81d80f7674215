use rhi::surface::{
    COLOR_SPACE_SRGB_NONLINEAR, DeviceCandidate, Extent2D, FORMAT_B8G8R8A8_SRGB, PRESENT_MODE_FIFO,
    PRESENT_MODE_MAILBOX, QueueFamily, SurfaceFormat, choose_extent, choose_image_count,
    choose_present_mode, choose_surface_format, concurrent_sharing, find_queue_families,
    pick_physical_device,
};

fn family(graphics: bool, supports_present: bool) -> QueueFamily {
    QueueFamily { graphics, supports_present }
}

#[test]
fn srgb_bgra_format_is_preferred_wherever_it_is_listed() {
    let unorm = SurfaceFormat { format: 44, color_space: COLOR_SPACE_SRGB_NONLINEAR };
    let srgb = SurfaceFormat { format: FORMAT_B8G8R8A8_SRGB, color_space: COLOR_SPACE_SRGB_NONLINEAR };
    assert_eq!(choose_surface_format(&[unorm, srgb]), srgb);
}

#[test]
fn first_format_is_taken_when_srgb_bgra_is_missing() {
    let unorm = SurfaceFormat { format: 44, color_space: COLOR_SPACE_SRGB_NONLINEAR };
    let srgb_other_space = SurfaceFormat { format: FORMAT_B8G8R8A8_SRGB, color_space: 1000104002 };
    assert_eq!(choose_surface_format(&[unorm, srgb_other_space]), unorm);
}

#[test]
fn mailbox_is_preferred_and_fifo_is_the_fallback() {
    assert_eq!(choose_present_mode(&[0, PRESENT_MODE_FIFO, PRESENT_MODE_MAILBOX]), PRESENT_MODE_MAILBOX);
    assert_eq!(choose_present_mode(&[0, 3]), PRESENT_MODE_FIFO);
    assert_eq!(choose_present_mode(&[]), PRESENT_MODE_FIFO);
}

#[test]
fn current_extent_wins_unless_it_is_left_open() {
    let min = Extent2D { width: 100, height: 100 };
    let max = Extent2D { width: 1920, height: 1080 };
    let window = Extent2D { width: 4000, height: 50 };
    let current = Extent2D { width: 800, height: 600 };
    assert_eq!(choose_extent(current, min, max, window), current);
    let open = Extent2D { width: u32::MAX, height: u32::MAX };
    assert_eq!(choose_extent(open, min, max, window), Extent2D { width: 1920, height: 100 });
    let inside = Extent2D { width: 640, height: 480 };
    assert_eq!(choose_extent(open, min, max, inside), inside);
}

#[test]
fn image_count_is_one_over_the_minimum_within_the_maximum() {
    assert_eq!(choose_image_count(2, 0), 3);
    assert_eq!(choose_image_count(2, 8), 3);
    assert_eq!(choose_image_count(3, 3), 3);
}

#[test]
fn sharing_is_concurrent_only_across_families() {
    assert!(concurrent_sharing(0, 1));
    assert!(!concurrent_sharing(2, 2));
}

#[test]
fn queue_family_scan_stops_once_both_are_found() {
    let families = [family(false, true), family(true, false), family(true, true)];
    assert_eq!(find_queue_families(&families, true), (Some(1), Some(0)));
    assert_eq!(find_queue_families(&families, false), (Some(1), None));
    let later_present = [family(true, false), family(false, false), family(true, true)];
    assert_eq!(find_queue_families(&later_present, true), (Some(2), Some(2)));
    assert_eq!(find_queue_families(&[family(false, false)], true), (None, None));
}

#[test]
fn first_usable_device_is_picked() {
    let no_swapchain = DeviceCandidate {
        queue_families: vec![family(true, true)],
        has_swapchain: false,
        has_portability_subset: false,
    };
    let no_present = DeviceCandidate {
        queue_families: vec![family(true, false)],
        has_swapchain: true,
        has_portability_subset: false,
    };
    let good = DeviceCandidate {
        queue_families: vec![family(false, true), family(true, false)],
        has_swapchain: true,
        has_portability_subset: true,
    };
    let devices = [no_swapchain, no_present, good];
    assert_eq!(pick_physical_device(&devices, true), Some((2, 1, Some(0), true)));
    assert_eq!(pick_physical_device(&devices, false), Some((1, 0, None, false)));
    assert_eq!(pick_physical_device(&devices[..2], true), None);
}
