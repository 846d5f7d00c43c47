//! ST7789V command bytes.
use vstd::prelude::*;

verus! {

/// Software reset.
pub const SWRESET: u8 = 0x01;
/// Sleep out.
pub const SLPOUT: u8 = 0x11;
/// Normal display mode on.
pub const NORON: u8 = 0x13;
/// Display inversion off.
pub const INVOFF: u8 = 0x20;
/// Display inversion on.
pub const INVON: u8 = 0x21;
/// Display on.
pub const DISPON: u8 = 0x29;
/// Column address set.
pub const CASET: u8 = 0x2A;
/// Row address set.
pub const RASET: u8 = 0x2B;
/// Memory write.
pub const RAMWR: u8 = 0x2C;
/// Memory data access control (orientation).
pub const MADCTL: u8 = 0x36;
/// Interface pixel format.
pub const COLMOD: u8 = 0x3A;
/// Porch setting.
pub const PORCTRL: u8 = 0xB2;
/// Gate control.
pub const GCTRL: u8 = 0xB7;
/// VCOM setting.
pub const VCOMS: u8 = 0xBB;
/// LCM control.
pub const LCMCTRL: u8 = 0xC0;
/// VDV and VRH command enable.
pub const VDVVRHEN: u8 = 0xC2;
/// VRH set.
pub const VRHS: u8 = 0xC3;
/// VDV set.
pub const VDVS: u8 = 0xC4;
/// Frame rate control in normal mode.
pub const FRCTRL2: u8 = 0xC6;
/// Power control 1.
pub const PWCTRL1: u8 = 0xD0;
/// Positive voltage gamma control.
pub const PVGAMCTRL: u8 = 0xE0;
/// Negative voltage gamma control.
pub const NVGAMCTRL: u8 = 0xE1;

} // verus!
