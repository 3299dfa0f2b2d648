//! Preview viewport presets: frame widths, custom-width clamping and the
//! portrait/landscape rotation of devices that have an orientation.
use vstd::prelude::*;

verus! {

/// A preview width preset.
#[derive(Clone, Copy, Debug, PartialEq, Eq, Structural)]
pub enum PreviewViewport {
    Desktop,
    Laptop,
    Tablet,
    Phone,
    Fit,
    Custom,
}

/// The name shown for a preset.
pub open spec fn viewport_label(v: PreviewViewport) -> Seq<char> {
    match v {
        PreviewViewport::Desktop => seq!['D', 'e', 's', 'k', 't', 'o', 'p'],
        PreviewViewport::Laptop => seq!['L', 'a', 'p', 't', 'o', 'p'],
        PreviewViewport::Tablet => seq!['T', 'a', 'b', 'l', 'e', 't'],
        PreviewViewport::Phone => seq!['P', 'h', 'o', 'n', 'e'],
        PreviewViewport::Fit => seq!['F', 'i', 't'],
        PreviewViewport::Custom => seq!['C', 'u', 's', 't', 'o', 'm'],
    }
}

/// The frame width of a preset; a custom viewport has none of its own.
pub open spec fn preset_width(v: PreviewViewport) -> Option<u32> {
    match v {
        PreviewViewport::Desktop => Some(1200),
        PreviewViewport::Laptop => Some(1024),
        PreviewViewport::Tablet => Some(768),
        PreviewViewport::Phone => Some(390),
        PreviewViewport::Fit => Some(1200),
        PreviewViewport::Custom => None,
    }
}

/// Devices with an orientation: tablet, phone and custom.
pub open spec fn rotatable(v: PreviewViewport) -> bool {
    v is Tablet || v is Phone || v is Custom
}

/// The widest width that still counts as portrait, for a device with an orientation.
pub open spec fn portrait_limit(v: PreviewViewport) -> u32 {
    match v {
        PreviewViewport::Tablet => 900,
        PreviewViewport::Phone => 600,
        _ => 700,
    }
}

/// The width a device takes in portrait and in landscape after a rotation.
pub open spec fn portrait_width(v: PreviewViewport) -> u32 {
    match v {
        PreviewViewport::Tablet => 768,
        _ => 390,
    }
}

pub open spec fn landscape_width(v: PreviewViewport) -> u32 {
    match v {
        PreviewViewport::Tablet => 1024,
        PreviewViewport::Phone => 844,
        _ => 900,
    }
}

/// The width after rotating a device: a portrait width becomes the landscape
/// width and any wider one the portrait width; other presets keep their width.
pub open spec fn rotated_width(v: PreviewViewport, w: u32) -> u32 {
    if !rotatable(v) {
        w
    } else if w <= portrait_limit(v) {
        landscape_width(v)
    } else {
        portrait_width(v)
    }
}

/// A device with an orientation is in landscape above its portrait limit.
pub open spec fn landscape(v: PreviewViewport, w: u32) -> bool {
    rotatable(v) && w > portrait_limit(v)
}

/// A custom width held to the range 240..=2400.
pub open spec fn clamped_width(w: u32) -> u32 {
    if w < 240 {
        240
    } else if w > 2400 {
        2400
    } else {
        w
    }
}

impl PreviewViewport {
    pub fn label(self) -> (r: &'static str)
        ensures
            r@ == viewport_label(self),
    {
        match self {
            PreviewViewport::Desktop => {
                proof {
                    reveal_strlit("Desktop");
                }
                "Desktop"
            },
            PreviewViewport::Laptop => {
                proof {
                    reveal_strlit("Laptop");
                }
                "Laptop"
            },
            PreviewViewport::Tablet => {
                proof {
                    reveal_strlit("Tablet");
                }
                "Tablet"
            },
            PreviewViewport::Phone => {
                proof {
                    reveal_strlit("Phone");
                }
                "Phone"
            },
            PreviewViewport::Fit => {
                proof {
                    reveal_strlit("Fit");
                }
                "Fit"
            },
            PreviewViewport::Custom => {
                proof {
                    reveal_strlit("Custom");
                }
                "Custom"
            },
        }
    }

    /// The preview frame width for this preset. `Fit` is sized by the frame
    /// itself; its stored width is the fallback when the user switches away.
    pub fn width(self) -> (r: Option<u32>)
        ensures
            r == preset_width(self),
    {
        match self {
            PreviewViewport::Desktop => Some(1200),
            PreviewViewport::Laptop => Some(1024),
            PreviewViewport::Tablet => Some(768),
            PreviewViewport::Phone => Some(390),
            PreviewViewport::Fit => Some(1200),
            PreviewViewport::Custom => None,
        }
    }

    pub fn is_rotatable(self) -> (r: bool)
        ensures
            r == rotatable(self),
    {
        match self {
            PreviewViewport::Tablet | PreviewViewport::Phone | PreviewViewport::Custom => true,
            _ => false,
        }
    }
}

/// Holds an arbitrary custom width to a sane website-preview range.
pub fn clamp_preview_width(width: u32) -> (r: u32)
    ensures
        r == clamped_width(width),
        240 <= r <= 2400,
        240 <= width <= 2400 ==> r == width,
{
    if width < 240 {
        240
    } else if width > 2400 {
        2400
    } else {
        width
    }
}

/// Selecting a preset sets the stored preview width to the preset's width; a
/// custom viewport keeps the width it had.
pub fn apply_preview_viewport(viewport: PreviewViewport, preview_width: &mut u32)
    ensures
        *final(preview_width) == match preset_width(viewport) {
            Some(w) => w,
            None => *old(preview_width),
        },
{
    if let Some(width) = viewport.width() {
        *preview_width = width;
    }
}

/// The width after rotating the device.
pub fn rotate_preview_width(viewport: PreviewViewport, current_width: u32) -> (r: u32)
    ensures
        r == rotated_width(viewport, current_width),
{
    match viewport {
        PreviewViewport::Tablet => {
            if current_width <= 900 {
                1024
            } else {
                768
            }
        },
        PreviewViewport::Phone => {
            if current_width <= 600 {
                844
            } else {
                390
            }
        },
        PreviewViewport::Custom => {
            if current_width <= 700 {
                900
            } else {
                390
            }
        },
        _ => current_width,
    }
}

/// Whether the device is at its wider (landscape) width. Presets without an
/// orientation report `false`.
pub fn is_landscape(viewport: PreviewViewport, width: u32) -> (r: bool)
    ensures
        r == landscape(viewport, width),
{
    match viewport {
        PreviewViewport::Tablet => width > 900,
        PreviewViewport::Phone => width > 600,
        PreviewViewport::Custom => width > 700,
        _ => false,
    }
}

/// Rotating a device with an orientation always flips its orientation.
pub proof fn law_rotation_flips_orientation(v: PreviewViewport, w: u32)
    requires
        rotatable(v),
    ensures
        landscape(v, rotated_width(v, w)) == !landscape(v, w),
{
}

/// Rotating twice returns to the width a rotation gave: the two widths a
/// rotation produces are each other's rotation.
pub proof fn law_rotation_round_trip(v: PreviewViewport, w: u32)
    ensures
        rotated_width(v, rotated_width(v, rotated_width(v, w))) == rotated_width(v, w),
{
}

/// A device with an orientation starts in portrait at its preset width (390
/// where it has none), and rotating there and back returns to that width.
pub proof fn law_preset_starts_portrait(v: PreviewViewport)
    requires
        rotatable(v),
    ensures
        ({
            let start = match preset_width(v) {
                Some(w) => w,
                None => 390u32,
            };
            &&& !landscape(v, start)
            &&& landscape(v, rotated_width(v, start))
            &&& rotated_width(v, rotated_width(v, start)) == start
        }),
{
}

/// Presets without an orientation are never rotated and never in landscape.
pub proof fn law_fixed_presets_do_not_rotate(v: PreviewViewport, w: u32)
    requires
        !rotatable(v),
    ensures
        rotated_width(v, w) == w,
        !landscape(v, w),
{
}

} // verus!
