//! The sheet's colours, as `0xRRGGBB` values.
//!
//! The window is a single warm off-white from the chrome to the bottom edge,
//! and colour is rationed: red means priority, blue means done.

use vstd::prelude::*;

verus! {

/// The whole window. Warm, R and G above B.
pub const GROUND: u32 = 0xFBFAF7;

/// The only white in the window: whatever is floating above the paper.
pub const RAISED: u32 = 0xFFFFFF;

pub const HAIRLINE: u32 = 0xEBE7E0;

pub const INK: u32 = 0x1F1D1A;

pub const INK_SOFT: u32 = 0x8B857A;

pub const INK_FAINT: u32 = 0xADA79B;

/// Priority, and the confirm step on destructive actions.
pub const PRIORITY: u32 = 0xD92D20;

/// Done: the filled checkbox and the tick in the completed list.
pub const DONE: u32 = 0x2F6FED;

/// The tints of one surface. A hover tint that reads on the warm ground
/// disappears on white, so the paper and the popover cannot share one.
///
/// `row_hover` is also what the hover actions are painted with: they slide in
/// over the title and have to hide it, so tray and row are the same colour.
#[derive(Clone, Copy)]
pub struct Surface {
    pub row_hover: u32,
    pub action_bg: u32,
    pub action_bg_hover: u32,
    /// One step past hover: pressing has to change something the instant the
    /// button goes down, and colour is the only channel available for it.
    pub action_bg_active: u32,
    /// The inside of an unchecked box.
    pub field: u32,
}

} // verus!
