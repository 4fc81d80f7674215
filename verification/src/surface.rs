//! The choices made when picking a physical device and creating a swapchain, from what the
//! driver reports: queue families, surface formats, present modes and surface capabilities.
use vstd::prelude::*;

verus! {

/// `VK_FORMAT_B8G8R8A8_SRGB`.
pub const FORMAT_B8G8R8A8_SRGB: i32 = 50;

/// `VK_COLOR_SPACE_SRGB_NONLINEAR_KHR`.
pub const COLOR_SPACE_SRGB_NONLINEAR: i32 = 0;

/// `VK_PRESENT_MODE_MAILBOX_KHR`.
pub const PRESENT_MODE_MAILBOX: i32 = 1;

/// `VK_PRESENT_MODE_FIFO_KHR`, which every driver supports.
pub const PRESENT_MODE_FIFO: i32 = 2;

/// A format a surface supports, with its color space (raw `VkFormat`, `VkColorSpaceKHR`).
#[derive(Debug, Clone, Copy, PartialEq, Eq, Structural)]
pub struct SurfaceFormat {
    pub format: i32,
    pub color_space: i32,
}

/// A width and a height in pixels.
#[derive(Debug, Clone, Copy, PartialEq, Eq, Structural)]
pub struct Extent2D {
    pub width: u32,
    pub height: u32,
}

/// The surface format to create the swapchain with.
pub fn choose_surface_format(formats: &[SurfaceFormat]) -> (r: SurfaceFormat)
    requires
        formats@.len() > 0,
    ensures
        (exists|i: int| 0 <= i < formats@.len() && (#[trigger] formats@[i]).format == FORMAT_B8G8R8A8_SRGB
            && formats@[i].color_space == COLOR_SPACE_SRGB_NONLINEAR) ==> r == (SurfaceFormat {
            format: FORMAT_B8G8R8A8_SRGB,
            color_space: COLOR_SPACE_SRGB_NONLINEAR,
        }),
        !(exists|i: int| 0 <= i < formats@.len() && (#[trigger] formats@[i]).format == FORMAT_B8G8R8A8_SRGB
            && formats@[i].color_space == COLOR_SPACE_SRGB_NONLINEAR) ==> r == formats@[0],
{
    let mut i: usize = 0;
    while i < formats.len()
        invariant
            i <= formats@.len(),
            forall|j: int| 0 <= j < i ==> !((#[trigger] formats@[j]).format == FORMAT_B8G8R8A8_SRGB
                && formats@[j].color_space == COLOR_SPACE_SRGB_NONLINEAR),
        decreases formats@.len() - i,
    {
        let f = formats[i];
        if f.format == FORMAT_B8G8R8A8_SRGB && f.color_space == COLOR_SPACE_SRGB_NONLINEAR {
            return f;
        }
        i = i + 1;
    }
    formats[0]
}

/// The present mode: mailbox when offered, else FIFO.
pub fn choose_present_mode(modes: &[i32]) -> (r: i32)
    ensures
        r == (if modes@.contains(PRESENT_MODE_MAILBOX) {
            PRESENT_MODE_MAILBOX
        } else {
            PRESENT_MODE_FIFO
        }),
{
    let mut i: usize = 0;
    while i < modes.len()
        invariant
            i <= modes@.len(),
            forall|j: int| 0 <= j < i ==> modes@[j] != PRESENT_MODE_MAILBOX,
        decreases modes@.len() - i,
    {
        if modes[i] == PRESENT_MODE_MAILBOX {
            return PRESENT_MODE_MAILBOX;
        }
        i = i + 1;
    }
    PRESENT_MODE_FIFO
}

/// `x` clamped to `lo..=hi`.
pub open spec fn clamp(x: u32, lo: u32, hi: u32) -> u32 {
    if x < lo {
        lo
    } else if x > hi {
        hi
    } else {
        x
    }
}

/// The swapchain extent: the surface's current extent, unless the surface leaves it to the
/// swapchain (a width of `u32::MAX`); then the window size, clamped to the allowed range.
pub fn choose_extent(current: Extent2D, min: Extent2D, max: Extent2D, window: Extent2D) -> (r: Extent2D)
    requires
        current.width == u32::MAX ==> min.width <= max.width && min.height <= max.height,
    ensures
        r == (if current.width != u32::MAX {
            current
        } else {
            Extent2D {
                width: clamp(window.width, min.width, max.width),
                height: clamp(window.height, min.height, max.height),
            }
        }),
{
    if current.width != u32::MAX {
        current
    } else {
        let width = if window.width < min.width {
            min.width
        } else if window.width > max.width {
            max.width
        } else {
            window.width
        };
        let height = if window.height < min.height {
            min.height
        } else if window.height > max.height {
            max.height
        } else {
            window.height
        };
        Extent2D { width, height }
    }
}

/// The number of swapchain images: one more than the minimum, but no more than the
/// maximum when there is one (`0` means none).
pub fn choose_image_count(min_image_count: u32, max_image_count: u32) -> (r: u32)
    requires
        min_image_count < u32::MAX,
    ensures
        r == (if max_image_count > 0 && min_image_count + 1 > max_image_count {
            max_image_count as int
        } else {
            min_image_count + 1
        }),
{
    let mut image_count = min_image_count + 1;
    if max_image_count > 0 && image_count > max_image_count {
        image_count = max_image_count;
    }
    image_count
}

/// Whether swapchain images are shared between two queue families (they are when the
/// graphics and present families differ).
pub fn concurrent_sharing(graphics_family: u32, present_family: u32) -> (r: bool)
    ensures
        r == (graphics_family != present_family),
{
    graphics_family != present_family
}

/// What a queue family offers: graphics work, and presentation to the surface.
#[derive(Debug, Clone, Copy, PartialEq, Eq, Structural)]
pub struct QueueFamily {
    pub graphics: bool,
    pub supports_present: bool,
}

/// The scan of the first `n` families: the last graphics family and the last present family
/// seen, and whether the scan stopped (both found, or a graphics family found when there is
/// no surface).
pub open spec fn scan_families(families: Seq<QueueFamily>, has_surface: bool, n: int) -> (
    Option<u32>,
    Option<u32>,
    bool,
)
    decreases n,
{
    if n <= 0 {
        (None, None, false)
    } else {
        let prev = scan_families(families, has_surface, n - 1);
        if prev.2 {
            prev
        } else {
            let f = families[n - 1];
            let g = if f.graphics {
                Some((n - 1) as u32)
            } else {
                prev.0
            };
            let p = if has_surface && f.supports_present {
                Some((n - 1) as u32)
            } else {
                prev.1
            };
            (g, p, g is Some && (p is Some || !has_surface))
        }
    }
}

/// The graphics and present queue families of a device, scanning its families in order and
/// stopping once a graphics family (and, with a surface, a present family) is found.
pub fn find_queue_families(families: &[QueueFamily], has_surface: bool) -> (r: (Option<u32>, Option<u32>))
    requires
        families@.len() <= u32::MAX,
    ensures
        r.0 == scan_families(families@, has_surface, families@.len() as int).0,
        r.1 == scan_families(families@, has_surface, families@.len() as int).1,
{
    let mut graphics: Option<u32> = None;
    let mut present: Option<u32> = None;
    let mut i: usize = 0;
    while i < families.len()
        invariant
            i <= families@.len(),
            families@.len() <= u32::MAX,
            (graphics, present, false) == scan_families(families@, has_surface, i as int),
        decreases families@.len() - i,
    {
        let f = families[i];
        if f.graphics {
            graphics = Some(i as u32);
        }
        if has_surface && f.supports_present {
            present = Some(i as u32);
        }
        i = i + 1;
        if graphics.is_some() && (present.is_some() || !has_surface) {
            proof {
                lemma_scan_stays(families@, has_surface, i as int, families@.len() as int);
            }
            return (graphics, present);
        }
    }
    (graphics, present)
}

proof fn lemma_scan_stays(families: Seq<QueueFamily>, has_surface: bool, k: int, n: int)
    requires
        0 <= k <= n,
        scan_families(families, has_surface, k).2,
    ensures
        scan_families(families, has_surface, n) == scan_families(families, has_surface, k),
    decreases n - k,
{
    if k < n {
        lemma_scan_stays(families, has_surface, k, n - 1);
    }
}

/// What the driver reports of a physical device: its queue families and whether it offers
/// the swapchain and portability-subset extensions.
pub struct DeviceCandidate {
    pub queue_families: Vec<QueueFamily>,
    pub has_swapchain: bool,
    pub has_portability_subset: bool,
}

/// A device can be used when it has a graphics family, a present family when there is a
/// surface, and the swapchain extension.
pub open spec fn usable(d: DeviceCandidate, has_surface: bool) -> bool {
    let s = scan_families(d.queue_families@, has_surface, d.queue_families@.len() as int);
    &&& s.0 is Some
    &&& (s.1 is Some || !has_surface)
    &&& d.has_swapchain
}

/// The first usable device, by its index, with its graphics family, its present family and
/// whether it has the portability subset; `None` when no device is usable.
pub fn pick_physical_device(devices: &[DeviceCandidate], has_surface: bool) -> (r: Option<(usize, u32, Option<u32>, bool)>)
    requires
        forall|i: int| 0 <= i < devices@.len() ==> (#[trigger] devices@[i]).queue_families@.len() <= u32::MAX,
    ensures
        match r {
            Some((i, g, p, portability)) => {
                &&& i < devices@.len()
                &&& usable(devices@[i as int], has_surface)
                &&& forall|j: int| 0 <= j < i ==> !usable(#[trigger] devices@[j], has_surface)
                &&& Some(g) == scan_families(devices@[i as int].queue_families@, has_surface, devices@[i as int].queue_families@.len() as int).0
                &&& p == scan_families(devices@[i as int].queue_families@, has_surface, devices@[i as int].queue_families@.len() as int).1
                &&& portability == devices@[i as int].has_portability_subset
            },
            None => forall|j: int| 0 <= j < devices@.len() ==> !usable(#[trigger] devices@[j], has_surface),
        },
{
    let mut i: usize = 0;
    while i < devices.len()
        invariant
            i <= devices@.len(),
            forall|k: int| 0 <= k < devices@.len() ==> (#[trigger] devices@[k]).queue_families@.len() <= u32::MAX,
            forall|j: int| 0 <= j < i ==> !usable(#[trigger] devices@[j], has_surface),
        decreases devices@.len() - i,
    {
        let d = &devices[i];
        let (graphics, present) = find_queue_families(d.queue_families.as_slice(), has_surface);
        let found = match graphics {
            Some(_) => present.is_some() || !has_surface,
            None => false,
        };
        if found && d.has_swapchain {
            match graphics {
                Some(g) => {
                    return Some((i, g, present, d.has_portability_subset));
                },
                None => {},
            }
        }
        i = i + 1;
    }
    None
}

} // verus!
