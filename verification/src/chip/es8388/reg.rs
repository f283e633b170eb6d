//! The ES8388 register map.

use vstd::prelude::*;

verus! {

pub const CONTROL1: u8 = 0x00;

pub const CONTROL2: u8 = 0x01;

pub const CHIPPOWER: u8 = 0x02;

pub const ADCPOWER: u8 = 0x03;

pub const DACPOWER: u8 = 0x04;

pub const CHIPLOPOW1: u8 = 0x05;

pub const CHIPLOPOW2: u8 = 0x06;

pub const ANAVOLMANAG: u8 = 0x07;

pub const MASTERMODE: u8 = 0x08;

pub const ADCCONTROL1: u8 = 0x09;

pub const ADCCONTROL2: u8 = 0x0A;

pub const ADCCONTROL3: u8 = 0x0B;

pub const ADCCONTROL4: u8 = 0x0C;

pub const ADCCONTROL5: u8 = 0x0D;

pub const ADCCONTROL6: u8 = 0x0E;

pub const ADCCONTROL7: u8 = 0x0F;

pub const ADCCONTROL8: u8 = 0x10;

pub const ADCCONTROL9: u8 = 0x11;

pub const ADCCONTROL10: u8 = 0x12;

pub const ADCCONTROL11: u8 = 0x13;

pub const ADCCONTROL12: u8 = 0x14;

pub const ADCCONTROL13: u8 = 0x15;

pub const ADCCONTROL14: u8 = 0x16;

pub const DACCONTROL1: u8 = 0x17;

pub const DACCONTROL2: u8 = 0x18;

pub const DACCONTROL3: u8 = 0x19;

pub const DACCONTROL4: u8 = 0x1A;

pub const DACCONTROL5: u8 = 0x1B;

pub const DACCONTROL6: u8 = 0x1C;

pub const DACCONTROL7: u8 = 0x1D;

pub const DACCONTROL8: u8 = 0x1E;

pub const DACCONTROL9: u8 = 0x1F;

pub const DACCONTROL10: u8 = 0x20;

pub const DACCONTROL11: u8 = 0x21;

pub const DACCONTROL12: u8 = 0x22;

pub const DACCONTROL13: u8 = 0x23;

pub const DACCONTROL14: u8 = 0x24;

pub const DACCONTROL15: u8 = 0x25;

pub const DACCONTROL16: u8 = 0x26;

pub const DACCONTROL17: u8 = 0x27;

pub const DACCONTROL18: u8 = 0x28;

pub const DACCONTROL19: u8 = 0x29;

pub const DACCONTROL20: u8 = 0x2A;

pub const DACCONTROL21: u8 = 0x2B;

pub const DACCONTROL22: u8 = 0x2C;

pub const DACCONTROL23: u8 = 0x2D;

pub const DACCONTROL24: u8 = 0x2E;

pub const DACCONTROL25: u8 = 0x2F;

pub const DACCONTROL26: u8 = 0x30;

pub const DACCONTROL27: u8 = 0x31;

pub const DACCONTROL28: u8 = 0x32;

pub const DACCONTROL29: u8 = 0x33;

pub const DACCONTROL30: u8 = 0x34;

} // verus!
