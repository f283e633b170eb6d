//! The ES8156 register map.

use vstd::prelude::*;

verus! {

pub const RESET_REG00: u8 = 0x00;

pub const MAINCLOCK_CTL_REG01: u8 = 0x01;

pub const SCLK_MODE_REG02: u8 = 0x02;

pub const LRCLK_DIV_H_REG03: u8 = 0x03;

pub const LRCLK_DIV_L_REG04: u8 = 0x04;

pub const SCLK_DIV_REG05: u8 = 0x05;

pub const NFS_CONFIG_REG06: u8 = 0x06;

pub const MISC_CONTROL1_REG07: u8 = 0x07;

pub const CLOCK_ON_OFF_REG08: u8 = 0x08;

pub const MISC_CONTROL2_REG09: u8 = 0x09;

pub const TIME_CONTROL1_REG0A: u8 = 0x0A;

pub const TIME_CONTROL2_REG0B: u8 = 0x0B;

pub const CHIP_STATUS_REG0C: u8 = 0x0C;

pub const P2S_CONTROL_REG0D: u8 = 0x0D;

pub const DAC_OSR_COUNTER_REG10: u8 = 0x10;

pub const DAC_SDP_REG11: u8 = 0x11;

pub const AUTOMUTE_SET_REG12: u8 = 0x12;

pub const DAC_MUTE_REG13: u8 = 0x13;

pub const VOLUME_CONTROL_REG14: u8 = 0x14;

pub const ALC_CONFIG1_REG15: u8 = 0x15;

pub const ALC_CONFIG2_REG16: u8 = 0x16;

pub const ALC_CONFIG3_REG17: u8 = 0x17;

pub const MISC_CONTROL3_REG18: u8 = 0x18;

pub const EQ_CONTROL1_REG19: u8 = 0x19;

pub const EQ_CONTROL2_REG1A: u8 = 0x1A;

pub const ANALOG_SYS1_REG20: u8 = 0x20;

pub const ANALOG_SYS2_REG21: u8 = 0x21;

pub const ANALOG_SYS3_REG22: u8 = 0x22;

pub const ANALOG_SYS4_REG23: u8 = 0x23;

pub const ANALOG_LP_REG24: u8 = 0x24;

pub const ANALOG_SYS5_REG25: u8 = 0x25;

pub const I2C_PAGESEL_REGFC: u8 = 0xFC;

pub const CHIPID1_REGFD: u8 = 0xFD;

pub const CHIPID0_REGFE: u8 = 0xFE;

pub const CHIP_VERSION_REGFF: u8 = 0xFF;

} // verus!
