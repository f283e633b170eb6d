//! The ES7210 register map.

use vstd::prelude::*;

verus! {

pub const RESET_REG00: u8 = 0x00;

pub const CLOCK_OFF_REG01: u8 = 0x01;

pub const MAINCLK_REG02: u8 = 0x02;

pub const MASTER_CLK_REG03: u8 = 0x03;

pub const LRCK_DIVH_REG04: u8 = 0x04;

pub const LRCK_DIVL_REG05: u8 = 0x05;

pub const POWER_DOWN_REG06: u8 = 0x06;

pub const OSR_REG07: u8 = 0x07;

pub const MODE_CONFIG_REG08: u8 = 0x08;

pub const TIME_CONTROL0_REG09: u8 = 0x09;

pub const TIME_CONTROL1_REG0A: u8 = 0x0A;

pub const SDP_INTERFACE1_REG11: u8 = 0x11;

pub const SDP_INTERFACE2_REG12: u8 = 0x12;

pub const ADC_AUTOMUTE_REG13: u8 = 0x13;

pub const ADC34_MUTERANGE_REG14: u8 = 0x14;

pub const ADC12_MUTERANGE_REG15: u8 = 0x15;

pub const ADC34_HPF2_REG20: u8 = 0x20;

pub const ADC34_HPF1_REG21: u8 = 0x21;

pub const ADC12_HPF1_REG22: u8 = 0x22;

pub const ADC12_HPF2_REG23: u8 = 0x23;

pub const ANALOG_REG40: u8 = 0x40;

pub const MIC12_BIAS_REG41: u8 = 0x41;

pub const MIC34_BIAS_REG42: u8 = 0x42;

pub const MIC1_GAIN_REG43: u8 = 0x43;

pub const MIC2_GAIN_REG44: u8 = 0x44;

pub const MIC3_GAIN_REG45: u8 = 0x45;

pub const MIC4_GAIN_REG46: u8 = 0x46;

pub const MIC1_POWER_REG47: u8 = 0x47;

pub const MIC2_POWER_REG48: u8 = 0x48;

pub const MIC3_POWER_REG49: u8 = 0x49;

pub const MIC4_POWER_REG4A: u8 = 0x4A;

pub const MIC12_POWER_REG4B: u8 = 0x4B;

pub const MIC34_POWER_REG4C: u8 = 0x4C;

} // verus!
