//! Fixed addresses of the PY32F0xx family.
use vstd::prelude::*;

verus! {

/// Product identifier the bootloader reports.
pub const CHIP_PID: u16 = 0x440;

/// Start of flash.
pub const FLASH_ADDR: u32 = 0x0800_0000;

/// Where application code is flashed and started.
pub const CODE_ADDR: u32 = 0x0800_0000;

/// Size of flash in bytes.
pub const FLASH_SIZE: u32 = 64 * 1024;

/// Start of SRAM.
pub const SRAM_ADDR: u32 = 0x2000_0000;

/// Start of the system bootloader.
pub const BOOT_ADDR: u32 = 0x1FFF_0000;

/// Unique-ID region.
pub const UID_ADDR: u32 = 0x1FFF_0E00;

/// Option-byte region (sixteen bytes).
pub const OPTION_ADDR: u32 = 0x1FFF_0E80;

/// User-configuration region.
pub const CONFIG_ADDR: u32 = 0x1FFF_0F00;

} // verus!
