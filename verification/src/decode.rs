//! Decoding of single LR35902 (GameBoy CPU) instructions.
use vstd::prelude::*;
use vstd::string::StringExecFns;
use crate::text::{
    dec, dec_signed8, hex_fixed, push_dec, push_dec_signed8, push_hex_fixed, push_str,
};

verus! {

/// How an instruction passes control on.
#[derive(Debug, Clone, Copy, PartialEq, Eq, Structural)]
pub enum FlowControl {
    /// Execution continues with the next instruction.
    Normal,
    /// Unconditional jump to a 16-bit address.
    Jump(u16),
    /// Jump to the address held in HL.
    JumpIndirect,
    /// Conditional jump to a 16-bit address.
    Branch(u16),
    /// Subroutine call to a 16-bit address.
    Call(u16),
    /// RET, RETI.
    Return,
    /// HALT, STOP.
    Halt,
}

/// One decoded instruction.
#[derive(Debug, Clone)]
pub struct DecodedInstruction {
    pub pc: u16,
    pub bank: u16,
    pub bytes: Vec<u8>,
    pub mnemonic: String,
    pub flow: FlowControl,
}

/// The kind of operand that follows an opcode byte, as it is written in the mnemonic.
#[derive(Debug, Clone, Copy, PartialEq, Eq, Structural)]
pub enum Operand {
    /// No operand is written (one-byte instructions, STOP and CB-prefixed ones).
    Plain,
    /// An 8-bit immediate, written as two hex digits.
    Hex8,
    /// A little-endian 16-bit immediate, written as four hex digits.
    Hex16,
    /// A signed 8-bit displacement, written as the four-digit target address.
    Relative,
    /// A signed 8-bit immediate, written in decimal.
    Signed8,
}

/// The opcodes that the CPU does not define.
pub open spec fn is_undefined_opcode(op: u8) -> bool {
    op == 0xD3 || op == 0xDB || op == 0xDD || op == 0xE3 || op == 0xE4 || op == 0xEB
        || op == 0xEC || op == 0xED || op == 0xF4 || op == 0xFC || op == 0xFD
}

/// The operand that follows each opcode.
pub open spec fn operand_kind(op: u8) -> Operand {
    match op {
        0x01 => Operand::Hex16,
        0x06 => Operand::Hex8,
        0x08 => Operand::Hex16,
        0x0E => Operand::Hex8,
        0x11 => Operand::Hex16,
        0x16 => Operand::Hex8,
        0x18 => Operand::Relative,
        0x1E => Operand::Hex8,
        0x20 => Operand::Relative,
        0x21 => Operand::Hex16,
        0x26 => Operand::Hex8,
        0x28 => Operand::Relative,
        0x2E => Operand::Hex8,
        0x30 => Operand::Relative,
        0x31 => Operand::Hex16,
        0x36 => Operand::Hex8,
        0x38 => Operand::Relative,
        0x3E => Operand::Hex8,
        0xC2 => Operand::Hex16,
        0xC3 => Operand::Hex16,
        0xC4 => Operand::Hex16,
        0xC6 => Operand::Hex8,
        0xCA => Operand::Hex16,
        0xCC => Operand::Hex16,
        0xCD => Operand::Hex16,
        0xCE => Operand::Hex8,
        0xD2 => Operand::Hex16,
        0xD4 => Operand::Hex16,
        0xD6 => Operand::Hex8,
        0xDA => Operand::Hex16,
        0xDC => Operand::Hex16,
        0xDE => Operand::Hex8,
        0xE0 => Operand::Hex8,
        0xE6 => Operand::Hex8,
        0xE8 => Operand::Signed8,
        0xEA => Operand::Hex16,
        0xEE => Operand::Hex8,
        0xF0 => Operand::Hex8,
        0xF6 => Operand::Hex8,
        0xF8 => Operand::Signed8,
        0xFA => Operand::Hex16,
        0xFE => Operand::Hex8,
        _ => Operand::Plain,
    }
}

/// Number of bytes an instruction with this opcode occupies.
pub open spec fn opcode_len(op: u8) -> nat {
    match operand_kind(op) {
        Operand::Hex16 => 3,
        Operand::Hex8 | Operand::Relative | Operand::Signed8 => 2,
        Operand::Plain => if op == 0x10 || op == 0xCB { 2 } else { 1 },
    }
}

/// Whether `data` begins with a complete, defined instruction.
pub open spec fn decodable(data: Seq<u8>) -> bool {
    &&& data.len() > 0
    &&& !is_undefined_opcode(data[0])
    &&& data.len() >= opcode_len(data[0])
}

/// The little-endian 16-bit immediate that follows the opcode.
pub open spec fn imm16(data: Seq<u8>) -> u16 {
    (data[1] + data[2] * 256) as u16
}

/// Target of a relative jump at `pc` with displacement byte `off` (two's complement),
/// taken from the address after the two-byte instruction, modulo 2^16.
pub open spec fn rel_target(pc: u16, off: u8) -> u16 {
    let d: int = if off < 128 { off as int } else { off - 256 };
    ((pc + 2 + d) % 65536) as u16
}

/// The flow of control of the instruction at the start of `data`, located at `pc`.
pub open spec fn flow_of(data: Seq<u8>, pc: u16) -> FlowControl {
    let op = data[0];
    if op == 0x10 || op == 0x76 {
        FlowControl::Halt
    } else if op == 0x18 {
        FlowControl::Jump(rel_target(pc, data[1]))
    } else if op == 0x20 || op == 0x28 || op == 0x30 || op == 0x38 {
        FlowControl::Branch(rel_target(pc, data[1]))
    } else if op == 0xC3 {
        FlowControl::Jump(imm16(data))
    } else if op == 0xC2 || op == 0xCA || op == 0xD2 || op == 0xDA {
        FlowControl::Branch(imm16(data))
    } else if op == 0xC4 || op == 0xCC || op == 0xCD || op == 0xD4 || op == 0xDC {
        FlowControl::Call(imm16(data))
    } else if op == 0xC7 || op == 0xCF || op == 0xD7 || op == 0xDF || op == 0xE7 || op == 0xEF
        || op == 0xF7 || op == 0xFF {
        FlowControl::Call((op - 0xC7) as u16)
    } else if op == 0xC9 || op == 0xD9 {
        FlowControl::Return
    } else if op == 0xE9 {
        FlowControl::JumpIndirect
    } else {
        FlowControl::Normal
    }
}

/// Register operand names, indexed by the three-bit register field.
pub open spec fn reg_name(r: nat) -> Seq<char> {
    if r == 0 {
        "B"@
    } else if r == 1 {
        "C"@
    } else if r == 2 {
        "D"@
    } else if r == 3 {
        "E"@
    } else if r == 4 {
        "H"@
    } else if r == 5 {
        "L"@
    } else if r == 6 {
        "(HL)"@
    } else {
        "A"@
    }
}

/// The text before the register operand of the ALU instructions 0x80..=0xBF, by operation.
pub open spec fn alu_prefix(k: nat) -> Seq<char> {
    if k == 0 {
        "ADD A, "@
    } else if k == 1 {
        "ADC A, "@
    } else if k == 2 {
        "SUB "@
    } else if k == 3 {
        "SBC A, "@
    } else if k == 4 {
        "AND "@
    } else if k == 5 {
        "XOR "@
    } else if k == 6 {
        "OR "@
    } else {
        "CP "@
    }
}

/// Names of the CB-prefixed rotate and shift operations (second byte below 0x40).
pub open spec fn shift_name(k: nat) -> Seq<char> {
    if k == 0 {
        "RLC"@
    } else if k == 1 {
        "RRC"@
    } else if k == 2 {
        "RL"@
    } else if k == 3 {
        "RR"@
    } else if k == 4 {
        "SLA"@
    } else if k == 5 {
        "SRA"@
    } else if k == 6 {
        "SWAP"@
    } else {
        "SRL"@
    }
}

/// Names of the CB-prefixed single-bit operations, by the top two bits of the second byte.
pub open spec fn bit_op_name(k: nat) -> Seq<char> {
    if k == 1 {
        "BIT"@
    } else if k == 2 {
        "RES"@
    } else {
        "SET"@
    }
}

/// Mnemonic of the CB-prefixed instruction whose second byte is `op`.
pub open spec fn cb_text(op: u8) -> Seq<char> {
    if op < 0x40 {
        shift_name((op / 8) as nat) + " "@ + reg_name((op % 8) as nat)
    } else {
        bit_op_name((op / 64) as nat) + " "@ + dec(((op / 8) % 8) as nat) + ", "@ + reg_name(
            (op % 8) as nat,
        )
    }
}

/// Text written before the operand, for opcodes outside the regular block 0x40..=0xBF.
pub open spec fn text_prefix(op: u8) -> Seq<char> {
    text_prefix_lit(op)@
}

/// Text written after the operand.
pub open spec fn text_suffix(op: u8) -> Seq<char> {
    text_suffix_lit(op)@
}

/// Table of the text written before the operand.
pub open spec fn text_prefix_lit(op: u8) -> &'static str {
    match op {
        0x00 => "NOP",
        0x01 => "LD BC, 0x",
        0x02 => "LD (BC), A",
        0x03 => "INC BC",
        0x04 => "INC B",
        0x05 => "DEC B",
        0x06 => "LD B, 0x",
        0x07 => "RLCA",
        0x08 => "LD (0x",
        0x09 => "ADD HL, BC",
        0x0A => "LD A, (BC)",
        0x0B => "DEC BC",
        0x0C => "INC C",
        0x0D => "DEC C",
        0x0E => "LD C, 0x",
        0x0F => "RRCA",
        0x10 => "STOP",
        0x11 => "LD DE, 0x",
        0x12 => "LD (DE), A",
        0x13 => "INC DE",
        0x14 => "INC D",
        0x15 => "DEC D",
        0x16 => "LD D, 0x",
        0x17 => "RLA",
        0x18 => "JR 0x",
        0x19 => "ADD HL, DE",
        0x1A => "LD A, (DE)",
        0x1B => "DEC DE",
        0x1C => "INC E",
        0x1D => "DEC E",
        0x1E => "LD E, 0x",
        0x1F => "RRA",
        0x20 => "JR NZ, 0x",
        0x21 => "LD HL, 0x",
        0x22 => "LD (HL+), A",
        0x23 => "INC HL",
        0x24 => "INC H",
        0x25 => "DEC H",
        0x26 => "LD H, 0x",
        0x27 => "DAA",
        0x28 => "JR Z, 0x",
        0x29 => "ADD HL, HL",
        0x2A => "LD A, (HL+)",
        0x2B => "DEC HL",
        0x2C => "INC L",
        0x2D => "DEC L",
        0x2E => "LD L, 0x",
        0x2F => "CPL",
        0x30 => "JR NC, 0x",
        0x31 => "LD SP, 0x",
        0x32 => "LD (HL-), A",
        0x33 => "INC SP",
        0x34 => "INC (HL)",
        0x35 => "DEC (HL)",
        0x36 => "LD (HL), 0x",
        0x37 => "SCF",
        0x38 => "JR C, 0x",
        0x39 => "ADD HL, SP",
        0x3A => "LD A, (HL-)",
        0x3B => "DEC SP",
        0x3C => "INC A",
        0x3D => "DEC A",
        0x3E => "LD A, 0x",
        0x3F => "CCF",
        0x76 => "HALT",
        0xC0 => "RET NZ",
        0xC1 => "POP BC",
        0xC2 => "JP NZ, 0x",
        0xC3 => "JP 0x",
        0xC4 => "CALL NZ, 0x",
        0xC5 => "PUSH BC",
        0xC6 => "ADD A, 0x",
        0xC7 => "RST 0x00",
        0xC8 => "RET Z",
        0xC9 => "RET",
        0xCA => "JP Z, 0x",
        0xCC => "CALL Z, 0x",
        0xCD => "CALL 0x",
        0xCE => "ADC A, 0x",
        0xCF => "RST 0x08",
        0xD0 => "RET NC",
        0xD1 => "POP DE",
        0xD2 => "JP NC, 0x",
        0xD4 => "CALL NC, 0x",
        0xD5 => "PUSH DE",
        0xD6 => "SUB 0x",
        0xD7 => "RST 0x10",
        0xD8 => "RET C",
        0xD9 => "RETI",
        0xDA => "JP C, 0x",
        0xDC => "CALL C, 0x",
        0xDE => "SBC A, 0x",
        0xDF => "RST 0x18",
        0xE0 => "LDH (0xFF00 + 0x",
        0xE1 => "POP HL",
        0xE2 => "LD (0xFF00 + C), A",
        0xE5 => "PUSH HL",
        0xE6 => "AND 0x",
        0xE7 => "RST 0x20",
        0xE8 => "ADD SP, ",
        0xE9 => "JP HL",
        0xEA => "LD (0x",
        0xEE => "XOR 0x",
        0xEF => "RST 0x28",
        0xF0 => "LDH A, (0xFF00 + 0x",
        0xF1 => "POP AF",
        0xF2 => "LD A, (0xFF00 + C)",
        0xF3 => "DI",
        0xF5 => "PUSH AF",
        0xF6 => "OR 0x",
        0xF7 => "RST 0x30",
        0xF8 => "LD HL, SP + ",
        0xF9 => "LD SP, HL",
        0xFA => "LD A, (0x",
        0xFB => "EI",
        0xFE => "CP 0x",
        0xFF => "RST 0x38",
        _ => "",
    }
}

/// Table of the text written after the operand.
pub open spec fn text_suffix_lit(op: u8) -> &'static str {
    match op {
        0x08 => "), SP",
        0xE0 => "), A",
        0xEA => "), A",
        0xF0 => ")",
        0xFA => ")",
        _ => "",
    }
}

/// The written operand of the instruction at the start of `data`, located at `pc`.
pub open spec fn operand_text(data: Seq<u8>, pc: u16) -> Seq<char> {
    match operand_kind(data[0]) {
        Operand::Plain => Seq::empty(),
        Operand::Hex8 => hex_fixed(data[1] as nat, 2),
        Operand::Hex16 => hex_fixed(imm16(data) as nat, 4),
        Operand::Relative => hex_fixed(rel_target(pc, data[1]) as nat, 4),
        Operand::Signed8 => dec_signed8(data[1]),
    }
}

/// The mnemonic of the instruction at the start of `data`, located at `pc`.
pub open spec fn mnemonic_of(data: Seq<u8>, pc: u16) -> Seq<char> {
    let op = data[0];
    if 0x40 <= op < 0x80 && op != 0x76 {
        "LD "@ + reg_name(((op - 0x40) / 8) as nat) + ", "@ + reg_name((op % 8) as nat)
    } else if 0x80 <= op < 0xC0 {
        alu_prefix(((op - 0x80) / 8) as nat) + reg_name((op % 8) as nat)
    } else if op == 0xCB {
        cb_text(data[1])
    } else {
        text_prefix(op) + operand_text(data, pc) + text_suffix(op)
    }
}

fn operand_kind_exec(op: u8) -> (k: Operand)
    ensures
        k == operand_kind(op),
{
    match op {
        0x01 => Operand::Hex16,
        0x06 => Operand::Hex8,
        0x08 => Operand::Hex16,
        0x0E => Operand::Hex8,
        0x11 => Operand::Hex16,
        0x16 => Operand::Hex8,
        0x18 => Operand::Relative,
        0x1E => Operand::Hex8,
        0x20 => Operand::Relative,
        0x21 => Operand::Hex16,
        0x26 => Operand::Hex8,
        0x28 => Operand::Relative,
        0x2E => Operand::Hex8,
        0x30 => Operand::Relative,
        0x31 => Operand::Hex16,
        0x36 => Operand::Hex8,
        0x38 => Operand::Relative,
        0x3E => Operand::Hex8,
        0xC2 => Operand::Hex16,
        0xC3 => Operand::Hex16,
        0xC4 => Operand::Hex16,
        0xC6 => Operand::Hex8,
        0xCA => Operand::Hex16,
        0xCC => Operand::Hex16,
        0xCD => Operand::Hex16,
        0xCE => Operand::Hex8,
        0xD2 => Operand::Hex16,
        0xD4 => Operand::Hex16,
        0xD6 => Operand::Hex8,
        0xDA => Operand::Hex16,
        0xDC => Operand::Hex16,
        0xDE => Operand::Hex8,
        0xE0 => Operand::Hex8,
        0xE6 => Operand::Hex8,
        0xE8 => Operand::Signed8,
        0xEA => Operand::Hex16,
        0xEE => Operand::Hex8,
        0xF0 => Operand::Hex8,
        0xF6 => Operand::Hex8,
        0xF8 => Operand::Signed8,
        0xFA => Operand::Hex16,
        0xFE => Operand::Hex8,
        _ => Operand::Plain,
    }
}

fn text_prefix_str(op: u8) -> (r: &'static str)
    ensures
        r == text_prefix_lit(op),
{
    match op {
        0x00 => "NOP",
        0x01 => "LD BC, 0x",
        0x02 => "LD (BC), A",
        0x03 => "INC BC",
        0x04 => "INC B",
        0x05 => "DEC B",
        0x06 => "LD B, 0x",
        0x07 => "RLCA",
        0x08 => "LD (0x",
        0x09 => "ADD HL, BC",
        0x0A => "LD A, (BC)",
        0x0B => "DEC BC",
        0x0C => "INC C",
        0x0D => "DEC C",
        0x0E => "LD C, 0x",
        0x0F => "RRCA",
        0x10 => "STOP",
        0x11 => "LD DE, 0x",
        0x12 => "LD (DE), A",
        0x13 => "INC DE",
        0x14 => "INC D",
        0x15 => "DEC D",
        0x16 => "LD D, 0x",
        0x17 => "RLA",
        0x18 => "JR 0x",
        0x19 => "ADD HL, DE",
        0x1A => "LD A, (DE)",
        0x1B => "DEC DE",
        0x1C => "INC E",
        0x1D => "DEC E",
        0x1E => "LD E, 0x",
        0x1F => "RRA",
        0x20 => "JR NZ, 0x",
        0x21 => "LD HL, 0x",
        0x22 => "LD (HL+), A",
        0x23 => "INC HL",
        0x24 => "INC H",
        0x25 => "DEC H",
        0x26 => "LD H, 0x",
        0x27 => "DAA",
        0x28 => "JR Z, 0x",
        0x29 => "ADD HL, HL",
        0x2A => "LD A, (HL+)",
        0x2B => "DEC HL",
        0x2C => "INC L",
        0x2D => "DEC L",
        0x2E => "LD L, 0x",
        0x2F => "CPL",
        0x30 => "JR NC, 0x",
        0x31 => "LD SP, 0x",
        0x32 => "LD (HL-), A",
        0x33 => "INC SP",
        0x34 => "INC (HL)",
        0x35 => "DEC (HL)",
        0x36 => "LD (HL), 0x",
        0x37 => "SCF",
        0x38 => "JR C, 0x",
        0x39 => "ADD HL, SP",
        0x3A => "LD A, (HL-)",
        0x3B => "DEC SP",
        0x3C => "INC A",
        0x3D => "DEC A",
        0x3E => "LD A, 0x",
        0x3F => "CCF",
        0x76 => "HALT",
        0xC0 => "RET NZ",
        0xC1 => "POP BC",
        0xC2 => "JP NZ, 0x",
        0xC3 => "JP 0x",
        0xC4 => "CALL NZ, 0x",
        0xC5 => "PUSH BC",
        0xC6 => "ADD A, 0x",
        0xC7 => "RST 0x00",
        0xC8 => "RET Z",
        0xC9 => "RET",
        0xCA => "JP Z, 0x",
        0xCC => "CALL Z, 0x",
        0xCD => "CALL 0x",
        0xCE => "ADC A, 0x",
        0xCF => "RST 0x08",
        0xD0 => "RET NC",
        0xD1 => "POP DE",
        0xD2 => "JP NC, 0x",
        0xD4 => "CALL NC, 0x",
        0xD5 => "PUSH DE",
        0xD6 => "SUB 0x",
        0xD7 => "RST 0x10",
        0xD8 => "RET C",
        0xD9 => "RETI",
        0xDA => "JP C, 0x",
        0xDC => "CALL C, 0x",
        0xDE => "SBC A, 0x",
        0xDF => "RST 0x18",
        0xE0 => "LDH (0xFF00 + 0x",
        0xE1 => "POP HL",
        0xE2 => "LD (0xFF00 + C), A",
        0xE5 => "PUSH HL",
        0xE6 => "AND 0x",
        0xE7 => "RST 0x20",
        0xE8 => "ADD SP, ",
        0xE9 => "JP HL",
        0xEA => "LD (0x",
        0xEE => "XOR 0x",
        0xEF => "RST 0x28",
        0xF0 => "LDH A, (0xFF00 + 0x",
        0xF1 => "POP AF",
        0xF2 => "LD A, (0xFF00 + C)",
        0xF3 => "DI",
        0xF5 => "PUSH AF",
        0xF6 => "OR 0x",
        0xF7 => "RST 0x30",
        0xF8 => "LD HL, SP + ",
        0xF9 => "LD SP, HL",
        0xFA => "LD A, (0x",
        0xFB => "EI",
        0xFE => "CP 0x",
        0xFF => "RST 0x38",
        _ => "",
    }
}

fn text_suffix_str(op: u8) -> (r: &'static str)
    ensures
        r == text_suffix_lit(op),
{
    match op {
        0x08 => "), SP",
        0xE0 => "), A",
        0xEA => "), A",
        0xF0 => ")",
        0xFA => ")",
        _ => "",
    }
}

fn reg_str(r: u8) -> (s: &'static str)
    ensures
        s@ == reg_name(r as nat),
{
    if r == 0 {
        "B"
    } else if r == 1 {
        "C"
    } else if r == 2 {
        "D"
    } else if r == 3 {
        "E"
    } else if r == 4 {
        "H"
    } else if r == 5 {
        "L"
    } else if r == 6 {
        "(HL)"
    } else {
        "A"
    }
}

fn alu_prefix_str(k: u8) -> (s: &'static str)
    ensures
        s@ == alu_prefix(k as nat),
{
    if k == 0 {
        "ADD A, "
    } else if k == 1 {
        "ADC A, "
    } else if k == 2 {
        "SUB "
    } else if k == 3 {
        "SBC A, "
    } else if k == 4 {
        "AND "
    } else if k == 5 {
        "XOR "
    } else if k == 6 {
        "OR "
    } else {
        "CP "
    }
}

fn shift_name_str(k: u8) -> (s: &'static str)
    ensures
        s@ == shift_name(k as nat),
{
    if k == 0 {
        "RLC"
    } else if k == 1 {
        "RRC"
    } else if k == 2 {
        "RL"
    } else if k == 3 {
        "RR"
    } else if k == 4 {
        "SLA"
    } else if k == 5 {
        "SRA"
    } else if k == 6 {
        "SWAP"
    } else {
        "SRL"
    }
}

fn bit_op_name_str(k: u8) -> (s: &'static str)
    ensures
        s@ == bit_op_name(k as nat),
{
    if k == 1 {
        "BIT"
    } else if k == 2 {
        "RES"
    } else {
        "SET"
    }
}

/// Mnemonic of a CB-prefixed instruction, given its second byte.
pub fn decode_cb_instruction(op: u8) -> (r: String)
    ensures
        r@ == cb_text(op),
{
    let mut s = String::new();
    if op < 0x40 {
        push_str(&mut s, shift_name_str(op / 8));
        push_str(&mut s, " ");
        push_str(&mut s, reg_str(op % 8));
        assert(s@ == shift_name((op / 8) as nat) + " "@ + reg_name((op % 8) as nat));
    } else {
        push_str(&mut s, bit_op_name_str(op / 64));
        push_str(&mut s, " ");
        push_dec(&mut s, ((op / 8) % 8) as u64);
        push_str(&mut s, ", ");
        push_str(&mut s, reg_str(op % 8));
        assert(s@ == bit_op_name((op / 64) as nat) + " "@ + dec(((op / 8) % 8) as nat) + ", "@
            + reg_name((op % 8) as nat));
    }
    s
}

/// Target of a relative jump (see `rel_target`).
pub fn relative_target(pc: u16, off: u8) -> (t: u16)
    ensures
        t == rel_target(pc, off),
{
    let base: u32 = pc as u32 + 2 + off as u32;
    let t: u32 = if off < 128 { base } else { base + 65280 };
    (t % 65536) as u16
}

fn flow_exec(data: &[u8], pc: u16) -> (f: FlowControl)
    requires
        decodable(data@),
    ensures
        f == flow_of(data@, pc),
{
    let op = data[0];
    if op == 0x10 || op == 0x76 {
        FlowControl::Halt
    } else if op == 0x18 {
        FlowControl::Jump(relative_target(pc, data[1]))
    } else if op == 0x20 || op == 0x28 || op == 0x30 || op == 0x38 {
        FlowControl::Branch(relative_target(pc, data[1]))
    } else if op == 0xC3 {
        FlowControl::Jump(data[1] as u16 + data[2] as u16 * 256)
    } else if op == 0xC2 || op == 0xCA || op == 0xD2 || op == 0xDA {
        FlowControl::Branch(data[1] as u16 + data[2] as u16 * 256)
    } else if op == 0xC4 || op == 0xCC || op == 0xCD || op == 0xD4 || op == 0xDC {
        FlowControl::Call(data[1] as u16 + data[2] as u16 * 256)
    } else if op == 0xC7 || op == 0xCF || op == 0xD7 || op == 0xDF || op == 0xE7 || op == 0xEF
        || op == 0xF7 || op == 0xFF {
        FlowControl::Call((op - 0xC7) as u16)
    } else if op == 0xC9 || op == 0xD9 {
        FlowControl::Return
    } else if op == 0xE9 {
        FlowControl::JumpIndirect
    } else {
        FlowControl::Normal
    }
}

fn mnemonic_exec(data: &[u8], pc: u16) -> (s: String)
    requires
        decodable(data@),
    ensures
        s@ == mnemonic_of(data@, pc),
{
    let op = data[0];
    if 0x40 <= op && op < 0x80 && op != 0x76 {
        let mut s = String::from_str("LD ");
        push_str(&mut s, reg_str((op - 0x40) / 8));
        push_str(&mut s, ", ");
        push_str(&mut s, reg_str(op % 8));
        s
    } else if 0x80 <= op && op < 0xC0 {
        let mut s = String::from_str(alu_prefix_str((op - 0x80) / 8));
        push_str(&mut s, reg_str(op % 8));
        s
    } else if op == 0xCB {
        decode_cb_instruction(data[1])
    } else {
        let mut s = String::from_str(text_prefix_str(op));
        let kind = operand_kind_exec(op);
        match kind {
            Operand::Plain => {
                assert(s@ + operand_text(data@, pc) == s@);
            },
            Operand::Hex8 => push_hex_fixed(&mut s, data[1] as u64, 2),
            Operand::Hex16 => push_hex_fixed(&mut s, (data[1] as u16 + data[2] as u16 * 256) as u64, 4),
            Operand::Relative => push_hex_fixed(&mut s, relative_target(pc, data[1]) as u64, 4),
            Operand::Signed8 => push_dec_signed8(&mut s, data[1]),
        }
        push_str(&mut s, text_suffix_str(op));
        s
    }
}

pub(crate) fn copy_prefix(data: &[u8], len: usize) -> (v: Vec<u8>)
    requires
        len <= data@.len(),
    ensures
        v@ == data@.take(len as int),
{
    let mut v: Vec<u8> = Vec::new();
    let mut i: usize = 0;
    while i < len
        invariant
            i <= len <= data@.len(),
            v@ == data@.take(i as int),
        decreases len - i,
    {
        v.push(data[i]);
        i = i + 1;
        assert(v@ == data@.take(i as int));
    }
    v
}

fn is_undefined_opcode_exec(op: u8) -> (b: bool)
    ensures
        b == is_undefined_opcode(op),
{
    op == 0xD3 || op == 0xDB || op == 0xDD || op == 0xE3 || op == 0xE4 || op == 0xEB
        || op == 0xEC || op == 0xED || op == 0xF4 || op == 0xFC || op == 0xFD
}

/// Number of bytes an instruction with this opcode occupies.
pub fn instruction_len(op: u8) -> (n: usize)
    ensures
        n == opcode_len(op),
{
    match operand_kind_exec(op) {
        Operand::Hex16 => 3,
        Operand::Hex8 | Operand::Relative | Operand::Signed8 => 2,
        Operand::Plain => if op == 0x10 || op == 0xCB { 2 } else { 1 },
    }
}

/// Decodes the instruction at the start of `data`, located at address `pc` of `bank`.
/// Returns `None` when `data` is empty, starts with an undefined opcode, or ends
/// before the instruction does.
pub fn decode_instruction(data: &[u8], pc: u16, bank: u16) -> (r: Option<DecodedInstruction>)
    ensures
        r is None <==> !decodable(data@),
        r matches Some(i) ==> {
            &&& i.pc == pc
            &&& i.bank == bank
            &&& i.bytes@ == data@.take(opcode_len(data@[0]) as int)
            &&& i.mnemonic@ == mnemonic_of(data@, pc)
            &&& i.flow == flow_of(data@, pc)
        },
{
    if data.len() == 0 {
        return None;
    }
    let op = data[0];
    if is_undefined_opcode_exec(op) {
        return None;
    }
    let len = instruction_len(op);
    if data.len() < len {
        return None;
    }
    let mnemonic = mnemonic_exec(data, pc);
    let flow = flow_exec(data, pc);
    let bytes = copy_prefix(data, len);
    Some(DecodedInstruction { pc, bank, bytes, mnemonic, flow })
}

} // verus!
