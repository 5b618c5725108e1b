//! A loader and software compositor for the classic WAD archive format.
//!
//! A WAD file bundles named binary resources ("lumps"). This crate parses
//! the container into a [`Wad`](wad::Wad), resolves lumps by name or by
//! position, decodes 256-entry RGB palettes and run-length-encoded sprite
//! patches, and blits both raw indexed screens and patches onto a fixed
//! 320x200 RGBA framebuffer owned by a [`Vid`](vid::Vid) compositor.

use vstd::prelude::*;

pub mod names;
pub mod palette;
pub mod patch;
pub mod vid;
pub mod wad;

pub use patch::Patch;
pub use patch::PatchError;
pub use palette::Palette;
pub use palette::PaletteError;
pub use palette::Rgb;
pub use vid::Framebuffer;
pub use vid::Pixel;
pub use vid::Vid;
pub use vid::VidError;
pub use wad::Lump;
pub use wad::Wad;
pub use wad::WadError;

verus! {

/// Width in pixels of the fixed framebuffer.
pub const SCREEN_WIDTH: u32 = 320;

/// Height in pixels of the fixed framebuffer.
pub const SCREEN_HEIGHT: u32 = 200;

} // verus!
