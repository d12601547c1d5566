//! Command opcodes of the SH1122 controller.
//!
//! The values are fixed by the controller's datasheet; several opcodes carry
//! their argument in their low bits and are combined with it by bitwise or.

use vstd::prelude::*;

verus! {

/// Display on (or with 0x01) / off (or with 0x00).
pub const SET_DISP: u8 = 0xae;
/// Column address, low nibble carried in the opcode's low 4 bits.
pub const SET_COL_ADR_LSB: u8 = 0x00;
/// Column address, high nibble carried in the opcode's low 4 bits.
pub const SET_COL_ADR_MSB: u8 = 0x10;
/// Row address, one payload byte.
pub const SET_ROW_ADR: u8 = 0xb0;
/// Display start line, carried in the opcode's low 6 bits.
pub const SET_DISP_START_LINE: u8 = 0x40;
/// Segment remap toggle, carried in the opcode's low bit.
pub const SET_SEG_REMAP: u8 = 0xa0;
/// Multiplex ratio, one payload byte.
pub const SET_MUX_RATIO: u8 = 0xa8;
/// Common output scan direction, carried in the opcode's low bit.
pub const SET_COM_OUT_DIR: u8 = 0xc0;
/// Display offset, one payload byte.
pub const SET_DISP_OFFSET: u8 = 0xd3;
/// Contrast, one payload byte.
pub const SET_CONTRAST: u8 = 0x81;
/// Entire display on.
pub const SET_ENTIRE_ON: u8 = 0xa4;
/// Normal (or with 0x00) or inverted (or with 0x01) polarity.
pub const SET_NORM_INV: u8 = 0xa6;

} // verus!
