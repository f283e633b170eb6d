//! The ES8311 register map.

use vstd::prelude::*;

verus! {

pub const RESET_REG00: u8 = 0x00;

pub const CLK_MANAGER_REG01: u8 = 0x01;

pub const CLK_MANAGER_REG02: u8 = 0x02;

pub const CLK_MANAGER_REG03: u8 = 0x03;

pub const CLK_MANAGER_REG04: u8 = 0x04;

pub const CLK_MANAGER_REG05: u8 = 0x05;

pub const CLK_MANAGER_REG06: u8 = 0x06;

pub const CLK_MANAGER_REG07: u8 = 0x07;

pub const CLK_MANAGER_REG08: u8 = 0x08;

pub const SDPIN_REG09: u8 = 0x09;

pub const SDPOUT_REG0A: u8 = 0x0A;

pub const SYSTEM_REG0B: u8 = 0x0B;

pub const SYSTEM_REG0C: u8 = 0x0C;

pub const SYSTEM_REG0D: u8 = 0x0D;

pub const SYSTEM_REG0E: u8 = 0x0E;

pub const SYSTEM_REG0F: u8 = 0x0F;

pub const SYSTEM_REG10: u8 = 0x10;

pub const SYSTEM_REG11: u8 = 0x11;

pub const SYSTEM_REG12: u8 = 0x12;

pub const SYSTEM_REG13: u8 = 0x13;

pub const SYSTEM_REG14: u8 = 0x14;

pub const ADC_REG15: u8 = 0x15;

pub const ADC_REG16: u8 = 0x16;

pub const ADC_REG17: u8 = 0x17;

pub const ADC_REG18: u8 = 0x18;

pub const ADC_REG19: u8 = 0x19;

pub const ADC_REG1A: u8 = 0x1A;

pub const ADC_REG1B: u8 = 0x1B;

pub const ADC_REG1C: u8 = 0x1C;

pub const DAC_REG31: u8 = 0x31;

pub const DAC_REG32: u8 = 0x32;

pub const DAC_REG33: u8 = 0x33;

pub const DAC_REG34: u8 = 0x34;

pub const DAC_REG35: u8 = 0x35;

pub const DAC_REG37: u8 = 0x37;

pub const GPIO_REG44: u8 = 0x44;

pub const GP_REG45: u8 = 0x45;

pub const CHD1_REGFD: u8 = 0xFD;

pub const CHD2_REGFE: u8 = 0xFE;

pub const CHVER_REGFF: u8 = 0xFF;

} // verus!
