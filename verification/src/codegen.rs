//! Turning decoded instructions into C statements, and the text of the generated
//! C sources.
use vstd::prelude::*;
use vstd::string::StringExecFns;
use std::collections::BTreeMap;
use crate::analysis::{
    abs_addr_spec, get_abs_addr, group_functions, lemma_sorted_listing, owned_by, owner,
    sorted_keys, sorted_listing, strictly_increasing, DisasmResult,
};
use crate::rom::RomInfo;
use crate::decode::{
    imm16, instruction_len, opcode_len, rel_target, relative_target, DecodedInstruction,
    FlowControl,
};
use crate::text::{
    dec, dec_signed8, hex_fixed, hex_min, push_dec, push_dec_signed8, push_hex_fixed,
    push_hex_min, push_str,
};

verus! {

/// How the C statement of an opcode outside the regular blocks is written.
#[derive(Clone, Copy)]
pub enum CForm {
    /// A fixed statement.
    Text(&'static str),
    /// Text around the 8-bit immediate, in two hex digits.
    Byte(&'static str, &'static str),
    /// Text around the 16-bit immediate, in four hex digits.
    Word(&'static str, &'static str),
    /// Text around the address of the next instruction, in four hex digits.
    Next(&'static str, &'static str),
    /// Text around the 8-bit immediate read as signed, in decimal.
    Signed(&'static str, &'static str),
    /// Text around a call: the 16-bit target, then the return address.
    Call(&'static str, &'static str),
    /// Text around the jump to a relative target.
    RelJump(&'static str, &'static str),
    /// Text around the jump to the 16-bit immediate target.
    AbsJump(&'static str, &'static str),
    /// An opcode with no C equivalent.
    Unknown,
}

/// The C statement form of each opcode outside 0x40..=0xBF and 0xCB.
pub open spec fn c_form(op: u8) -> CForm {
    match op {
        0x00 => CForm::Text("cpu->cycles += 4;"),
        0x01 => CForm::Word("cpu->bc = 0x", "; cpu->cycles += 12;"),
        0x02 => CForm::Text("write8(cpu, cpu->bc, cpu->a); cpu->cycles += 8;"),
        0x03 => CForm::Text("cpu->bc++; cpu->cycles += 8;"),
        0x04 => CForm::Text("cpu->b = cpu_inc8(cpu, cpu->b); cpu->cycles += 4;"),
        0x05 => CForm::Text("cpu->b = cpu_dec8(cpu, cpu->b); cpu->cycles += 4;"),
        0x06 => CForm::Byte("cpu->b = 0x", "; cpu->cycles += 8;"),
        0x07 => CForm::Text("cpu_rlca(cpu); cpu->cycles += 4;"),
        0x08 => CForm::Word("write16(cpu, 0x", ", cpu->sp); cpu->cycles += 20;"),
        0x09 => CForm::Text("cpu_add_hl(cpu, cpu->bc); cpu->cycles += 8;"),
        0x0A => CForm::Text("cpu->a = read8(cpu, cpu->bc); cpu->cycles += 8;"),
        0x0B => CForm::Text("cpu->bc--; cpu->cycles += 8;"),
        0x0C => CForm::Text("cpu->c = cpu_inc8(cpu, cpu->c); cpu->cycles += 4;"),
        0x0D => CForm::Text("cpu->c = cpu_dec8(cpu, cpu->c); cpu->cycles += 4;"),
        0x0E => CForm::Byte("cpu->c = 0x", "; cpu->cycles += 8;"),
        0x0F => CForm::Text("cpu_rrca(cpu); cpu->cycles += 4;"),
        0x10 => CForm::Next("cpu->halted = true; cpu->cycles += 4; cpu->pc = 0x", "; return;"),
        0x11 => CForm::Word("cpu->de = 0x", "; cpu->cycles += 12;"),
        0x12 => CForm::Text("write8(cpu, cpu->de, cpu->a); cpu->cycles += 8;"),
        0x13 => CForm::Text("cpu->de++; cpu->cycles += 8;"),
        0x14 => CForm::Text("cpu->d = cpu_inc8(cpu, cpu->d); cpu->cycles += 4;"),
        0x15 => CForm::Text("cpu->d = cpu_dec8(cpu, cpu->d); cpu->cycles += 4;"),
        0x16 => CForm::Byte("cpu->d = 0x", "; cpu->cycles += 8;"),
        0x17 => CForm::Text("cpu_rla(cpu); cpu->cycles += 4;"),
        0x18 => CForm::RelJump("cpu->cycles += 12; ", ""),
        0x19 => CForm::Text("cpu_add_hl(cpu, cpu->de); cpu->cycles += 8;"),
        0x1A => CForm::Text("cpu->a = read8(cpu, cpu->de); cpu->cycles += 8;"),
        0x1B => CForm::Text("cpu->de--; cpu->cycles += 8;"),
        0x1C => CForm::Text("cpu->e = cpu_inc8(cpu, cpu->e); cpu->cycles += 4;"),
        0x1D => CForm::Text("cpu->e = cpu_dec8(cpu, cpu->e); cpu->cycles += 4;"),
        0x1E => CForm::Byte("cpu->e = 0x", "; cpu->cycles += 8;"),
        0x1F => CForm::Text("cpu_rra(cpu); cpu->cycles += 4;"),
        0x20 => CForm::RelJump("if (!(cpu->f & FLAG_Z)) { cpu->cycles += 12; ", " } else { cpu->cycles += 8; }"),
        0x21 => CForm::Word("cpu->hl = 0x", "; cpu->cycles += 12;"),
        0x22 => CForm::Text("write8(cpu, cpu->hl, cpu->a); cpu->hl++; cpu->cycles += 8;"),
        0x23 => CForm::Text("cpu->hl++; cpu->cycles += 8;"),
        0x24 => CForm::Text("cpu->h = cpu_inc8(cpu, cpu->h); cpu->cycles += 4;"),
        0x25 => CForm::Text("cpu->h = cpu_dec8(cpu, cpu->h); cpu->cycles += 4;"),
        0x26 => CForm::Byte("cpu->h = 0x", "; cpu->cycles += 8;"),
        0x27 => CForm::Text("cpu_daa(cpu); cpu->cycles += 4;"),
        0x28 => CForm::RelJump("if (cpu->f & FLAG_Z) { cpu->cycles += 12; ", " } else { cpu->cycles += 8; }"),
        0x29 => CForm::Text("cpu_add_hl(cpu, cpu->hl); cpu->cycles += 8;"),
        0x2A => CForm::Text("cpu->a = read8(cpu, cpu->hl); cpu->hl++; cpu->cycles += 8;"),
        0x2B => CForm::Text("cpu->hl--; cpu->cycles += 8;"),
        0x2C => CForm::Text("cpu->l = cpu_inc8(cpu, cpu->l); cpu->cycles += 4;"),
        0x2D => CForm::Text("cpu->l = cpu_dec8(cpu, cpu->l); cpu->cycles += 4;"),
        0x2E => CForm::Byte("cpu->l = 0x", "; cpu->cycles += 8;"),
        0x2F => CForm::Text("cpu->a = ~cpu->a; cpu->f |= FLAG_N | FLAG_H; cpu->cycles += 4;"),
        0x30 => CForm::RelJump("if (!(cpu->f & FLAG_C)) { cpu->cycles += 12; ", " } else { cpu->cycles += 8; }"),
        0x31 => CForm::Word("cpu->sp = 0x", "; cpu->cycles += 12;"),
        0x32 => CForm::Text("write8(cpu, cpu->hl, cpu->a); cpu->hl--; cpu->cycles += 8;"),
        0x33 => CForm::Text("cpu->sp++; cpu->cycles += 8;"),
        0x34 => CForm::Text("write8(cpu, cpu->hl, cpu_inc8(cpu, read8(cpu, cpu->hl))); cpu->cycles += 12;"),
        0x35 => CForm::Text("write8(cpu, cpu->hl, cpu_dec8(cpu, read8(cpu, cpu->hl))); cpu->cycles += 12;"),
        0x36 => CForm::Byte("write8(cpu, cpu->hl, 0x", "); cpu->cycles += 12;"),
        0x37 => CForm::Text("cpu->f &= ~(FLAG_N | FLAG_H); cpu->f |= FLAG_C; cpu->cycles += 4;"),
        0x38 => CForm::RelJump("if (cpu->f & FLAG_C) { cpu->cycles += 12; ", " } else { cpu->cycles += 8; }"),
        0x39 => CForm::Text("cpu_add_hl(cpu, cpu->sp); cpu->cycles += 8;"),
        0x3A => CForm::Text("cpu->a = read8(cpu, cpu->hl); cpu->hl--; cpu->cycles += 8;"),
        0x3B => CForm::Text("cpu->sp--; cpu->cycles += 8;"),
        0x3C => CForm::Text("cpu->a = cpu_inc8(cpu, cpu->a); cpu->cycles += 4;"),
        0x3D => CForm::Text("cpu->a = cpu_dec8(cpu, cpu->a); cpu->cycles += 4;"),
        0x3E => CForm::Byte("cpu->a = 0x", "; cpu->cycles += 8;"),
        0x3F => CForm::Text("cpu->f &= ~FLAG_N; cpu->f ^= FLAG_C; cpu->f &= ~FLAG_H; cpu->cycles += 4;"),
        0x76 => CForm::Next("cpu->halted = true; cpu->cycles += 4; cpu->pc = 0x", "; return;"),
        0xC0 => CForm::Text("if (!(cpu->f & FLAG_Z)) { cpu->cycles += 20; cpu_ret(cpu); return; } else { cpu->cycles += 8; }"),
        0xC1 => CForm::Text("cpu->bc = cpu_pop16(cpu); cpu->cycles += 12;"),
        0xC2 => CForm::AbsJump("if (!(cpu->f & FLAG_Z)) { cpu->cycles += 12; ", " } else { cpu->cycles += 12; }"),
        0xC3 => CForm::AbsJump("cpu->cycles += 16; ", ""),
        0xC4 => CForm::Call("if (!(cpu->f & FLAG_Z)) { cpu->cycles += 24; cpu_call(cpu, 0x", "); return; } else { cpu->cycles += 12; }"),
        0xC5 => CForm::Text("cpu_push16(cpu, cpu->bc); cpu->cycles += 16;"),
        0xC6 => CForm::Byte("cpu_add_a(cpu, 0x", "); cpu->cycles += 8;"),
        0xC7 => CForm::Next("cpu->cycles += 16; cpu_call(cpu, 0x0000, 0x", "); return;"),
        0xC8 => CForm::Text("if (cpu->f & FLAG_Z) { cpu->cycles += 20; cpu_ret(cpu); return; } else { cpu->cycles += 8; }"),
        0xC9 => CForm::Text("cpu->cycles += 16; cpu_ret(cpu); return;"),
        0xCA => CForm::AbsJump("if (cpu->f & FLAG_Z) { cpu->cycles += 12; ", " } else { cpu->cycles += 12; }"),
        0xCC => CForm::Call("if (cpu->f & FLAG_Z) { cpu->cycles += 24; cpu_call(cpu, 0x", "); return; } else { cpu->cycles += 12; }"),
        0xCD => CForm::Call("cpu->cycles += 24; cpu_call(cpu, 0x", "); return;"),
        0xCE => CForm::Byte("cpu_adc_a(cpu, 0x", "); cpu->cycles += 8;"),
        0xCF => CForm::Next("cpu->cycles += 16; cpu_call(cpu, 0x0008, 0x", "); return;"),
        0xD0 => CForm::Text("if (!(cpu->f & FLAG_C)) { cpu->cycles += 20; cpu_ret(cpu); return; } else { cpu->cycles += 8; }"),
        0xD1 => CForm::Text("cpu->de = cpu_pop16(cpu); cpu->cycles += 12;"),
        0xD2 => CForm::AbsJump("if (!(cpu->f & FLAG_C)) { cpu->cycles += 12; ", " } else { cpu->cycles += 12; }"),
        0xD4 => CForm::Call("if (!(cpu->f & FLAG_C)) { cpu->cycles += 24; cpu_call(cpu, 0x", "); return; } else { cpu->cycles += 12; }"),
        0xD5 => CForm::Text("cpu_push16(cpu, cpu->de); cpu->cycles += 16;"),
        0xD6 => CForm::Byte("cpu_sub_a(cpu, 0x", "); cpu->cycles += 8;"),
        0xD7 => CForm::Next("cpu->cycles += 16; cpu_call(cpu, 0x0010, 0x", "); return;"),
        0xD8 => CForm::Text("if (cpu->f & FLAG_C) { cpu->cycles += 20; cpu_ret(cpu); return; } else { cpu->cycles += 8; }"),
        0xD9 => CForm::Text("cpu->cycles += 16; cpu->ime = true; cpu_ret(cpu); return;"),
        0xDA => CForm::AbsJump("if (cpu->f & FLAG_C) { cpu->cycles += 12; ", " } else { cpu->cycles += 12; }"),
        0xDC => CForm::Call("if (cpu->f & FLAG_C) { cpu->cycles += 24; cpu_call(cpu, 0x", "); return; } else { cpu->cycles += 12; }"),
        0xDE => CForm::Byte("cpu_sbc_a(cpu, 0x", "); cpu->cycles += 8;"),
        0xDF => CForm::Next("cpu->cycles += 16; cpu_call(cpu, 0x0018, 0x", "); return;"),
        0xE0 => CForm::Byte("write8(cpu, 0xFF00 + 0x", ", cpu->a); cpu->cycles += 12;"),
        0xE1 => CForm::Text("cpu->hl = cpu_pop16(cpu); cpu->cycles += 12;"),
        0xE2 => CForm::Text("write8(cpu, 0xFF00 + cpu->c, cpu->a); cpu->cycles += 8;"),
        0xE5 => CForm::Text("cpu_push16(cpu, cpu->hl); cpu->cycles += 16;"),
        0xE6 => CForm::Byte("cpu_and_a(cpu, 0x", "); cpu->cycles += 8;"),
        0xE7 => CForm::Next("cpu->cycles += 16; cpu_call(cpu, 0x0020, 0x", "); return;"),
        0xE8 => CForm::Signed("cpu->sp = cpu_add_sp(cpu, ", "); cpu->cycles += 16;"),
        0xE9 => CForm::Text("cpu->cycles += 4; goto_pc(cpu, cpu->hl); return;"),
        0xEA => CForm::Word("write8(cpu, 0x", ", cpu->a); cpu->cycles += 16;"),
        0xEE => CForm::Byte("cpu_xor_a(cpu, 0x", "); cpu->cycles += 8;"),
        0xEF => CForm::Next("cpu->cycles += 16; cpu_call(cpu, 0x0028, 0x", "); return;"),
        0xF0 => CForm::Byte("cpu->a = read8(cpu, 0xFF00 + 0x", "); cpu->cycles += 12;"),
        0xF1 => CForm::Text("cpu->af = cpu_pop16(cpu) & 0xFFF0; cpu->cycles += 12;"),
        0xF2 => CForm::Text("cpu->a = read8(cpu, 0xFF00 + cpu->c); cpu->cycles += 8;"),
        0xF3 => CForm::Text("cpu->ime = false; cpu->cycles += 4;"),
        0xF5 => CForm::Text("cpu_push16(cpu, cpu->af); cpu->cycles += 16;"),
        0xF6 => CForm::Byte("cpu_or_a(cpu, 0x", "); cpu->cycles += 8;"),
        0xF7 => CForm::Next("cpu->cycles += 16; cpu_call(cpu, 0x0030, 0x", "); return;"),
        0xF8 => CForm::Signed("cpu->hl = cpu_add_sp(cpu, ", "); cpu->cycles += 12;"),
        0xF9 => CForm::Text("cpu->sp = cpu->hl; cpu->cycles += 8;"),
        0xFA => CForm::Word("cpu->a = read8(cpu, 0x", "); cpu->cycles += 16;"),
        0xFB => CForm::Text("cpu->ime = true; cpu->cycles += 4;"),
        0xFE => CForm::Byte("cpu_cp_a(cpu, 0x", "); cpu->cycles += 8;"),
        0xFF => CForm::Next("cpu->cycles += 16; cpu_call(cpu, 0x0038, 0x", "); return;"),
        _ => CForm::Unknown,
    }
}

fn c_form_exec(op: u8) -> (f: CForm)
    ensures
        f == c_form(op),
{
    match op {
        0x00 => CForm::Text("cpu->cycles += 4;"),
        0x01 => CForm::Word("cpu->bc = 0x", "; cpu->cycles += 12;"),
        0x02 => CForm::Text("write8(cpu, cpu->bc, cpu->a); cpu->cycles += 8;"),
        0x03 => CForm::Text("cpu->bc++; cpu->cycles += 8;"),
        0x04 => CForm::Text("cpu->b = cpu_inc8(cpu, cpu->b); cpu->cycles += 4;"),
        0x05 => CForm::Text("cpu->b = cpu_dec8(cpu, cpu->b); cpu->cycles += 4;"),
        0x06 => CForm::Byte("cpu->b = 0x", "; cpu->cycles += 8;"),
        0x07 => CForm::Text("cpu_rlca(cpu); cpu->cycles += 4;"),
        0x08 => CForm::Word("write16(cpu, 0x", ", cpu->sp); cpu->cycles += 20;"),
        0x09 => CForm::Text("cpu_add_hl(cpu, cpu->bc); cpu->cycles += 8;"),
        0x0A => CForm::Text("cpu->a = read8(cpu, cpu->bc); cpu->cycles += 8;"),
        0x0B => CForm::Text("cpu->bc--; cpu->cycles += 8;"),
        0x0C => CForm::Text("cpu->c = cpu_inc8(cpu, cpu->c); cpu->cycles += 4;"),
        0x0D => CForm::Text("cpu->c = cpu_dec8(cpu, cpu->c); cpu->cycles += 4;"),
        0x0E => CForm::Byte("cpu->c = 0x", "; cpu->cycles += 8;"),
        0x0F => CForm::Text("cpu_rrca(cpu); cpu->cycles += 4;"),
        0x10 => CForm::Next("cpu->halted = true; cpu->cycles += 4; cpu->pc = 0x", "; return;"),
        0x11 => CForm::Word("cpu->de = 0x", "; cpu->cycles += 12;"),
        0x12 => CForm::Text("write8(cpu, cpu->de, cpu->a); cpu->cycles += 8;"),
        0x13 => CForm::Text("cpu->de++; cpu->cycles += 8;"),
        0x14 => CForm::Text("cpu->d = cpu_inc8(cpu, cpu->d); cpu->cycles += 4;"),
        0x15 => CForm::Text("cpu->d = cpu_dec8(cpu, cpu->d); cpu->cycles += 4;"),
        0x16 => CForm::Byte("cpu->d = 0x", "; cpu->cycles += 8;"),
        0x17 => CForm::Text("cpu_rla(cpu); cpu->cycles += 4;"),
        0x18 => CForm::RelJump("cpu->cycles += 12; ", ""),
        0x19 => CForm::Text("cpu_add_hl(cpu, cpu->de); cpu->cycles += 8;"),
        0x1A => CForm::Text("cpu->a = read8(cpu, cpu->de); cpu->cycles += 8;"),
        0x1B => CForm::Text("cpu->de--; cpu->cycles += 8;"),
        0x1C => CForm::Text("cpu->e = cpu_inc8(cpu, cpu->e); cpu->cycles += 4;"),
        0x1D => CForm::Text("cpu->e = cpu_dec8(cpu, cpu->e); cpu->cycles += 4;"),
        0x1E => CForm::Byte("cpu->e = 0x", "; cpu->cycles += 8;"),
        0x1F => CForm::Text("cpu_rra(cpu); cpu->cycles += 4;"),
        0x20 => CForm::RelJump("if (!(cpu->f & FLAG_Z)) { cpu->cycles += 12; ", " } else { cpu->cycles += 8; }"),
        0x21 => CForm::Word("cpu->hl = 0x", "; cpu->cycles += 12;"),
        0x22 => CForm::Text("write8(cpu, cpu->hl, cpu->a); cpu->hl++; cpu->cycles += 8;"),
        0x23 => CForm::Text("cpu->hl++; cpu->cycles += 8;"),
        0x24 => CForm::Text("cpu->h = cpu_inc8(cpu, cpu->h); cpu->cycles += 4;"),
        0x25 => CForm::Text("cpu->h = cpu_dec8(cpu, cpu->h); cpu->cycles += 4;"),
        0x26 => CForm::Byte("cpu->h = 0x", "; cpu->cycles += 8;"),
        0x27 => CForm::Text("cpu_daa(cpu); cpu->cycles += 4;"),
        0x28 => CForm::RelJump("if (cpu->f & FLAG_Z) { cpu->cycles += 12; ", " } else { cpu->cycles += 8; }"),
        0x29 => CForm::Text("cpu_add_hl(cpu, cpu->hl); cpu->cycles += 8;"),
        0x2A => CForm::Text("cpu->a = read8(cpu, cpu->hl); cpu->hl++; cpu->cycles += 8;"),
        0x2B => CForm::Text("cpu->hl--; cpu->cycles += 8;"),
        0x2C => CForm::Text("cpu->l = cpu_inc8(cpu, cpu->l); cpu->cycles += 4;"),
        0x2D => CForm::Text("cpu->l = cpu_dec8(cpu, cpu->l); cpu->cycles += 4;"),
        0x2E => CForm::Byte("cpu->l = 0x", "; cpu->cycles += 8;"),
        0x2F => CForm::Text("cpu->a = ~cpu->a; cpu->f |= FLAG_N | FLAG_H; cpu->cycles += 4;"),
        0x30 => CForm::RelJump("if (!(cpu->f & FLAG_C)) { cpu->cycles += 12; ", " } else { cpu->cycles += 8; }"),
        0x31 => CForm::Word("cpu->sp = 0x", "; cpu->cycles += 12;"),
        0x32 => CForm::Text("write8(cpu, cpu->hl, cpu->a); cpu->hl--; cpu->cycles += 8;"),
        0x33 => CForm::Text("cpu->sp++; cpu->cycles += 8;"),
        0x34 => CForm::Text("write8(cpu, cpu->hl, cpu_inc8(cpu, read8(cpu, cpu->hl))); cpu->cycles += 12;"),
        0x35 => CForm::Text("write8(cpu, cpu->hl, cpu_dec8(cpu, read8(cpu, cpu->hl))); cpu->cycles += 12;"),
        0x36 => CForm::Byte("write8(cpu, cpu->hl, 0x", "); cpu->cycles += 12;"),
        0x37 => CForm::Text("cpu->f &= ~(FLAG_N | FLAG_H); cpu->f |= FLAG_C; cpu->cycles += 4;"),
        0x38 => CForm::RelJump("if (cpu->f & FLAG_C) { cpu->cycles += 12; ", " } else { cpu->cycles += 8; }"),
        0x39 => CForm::Text("cpu_add_hl(cpu, cpu->sp); cpu->cycles += 8;"),
        0x3A => CForm::Text("cpu->a = read8(cpu, cpu->hl); cpu->hl--; cpu->cycles += 8;"),
        0x3B => CForm::Text("cpu->sp--; cpu->cycles += 8;"),
        0x3C => CForm::Text("cpu->a = cpu_inc8(cpu, cpu->a); cpu->cycles += 4;"),
        0x3D => CForm::Text("cpu->a = cpu_dec8(cpu, cpu->a); cpu->cycles += 4;"),
        0x3E => CForm::Byte("cpu->a = 0x", "; cpu->cycles += 8;"),
        0x3F => CForm::Text("cpu->f &= ~FLAG_N; cpu->f ^= FLAG_C; cpu->f &= ~FLAG_H; cpu->cycles += 4;"),
        0x76 => CForm::Next("cpu->halted = true; cpu->cycles += 4; cpu->pc = 0x", "; return;"),
        0xC0 => CForm::Text("if (!(cpu->f & FLAG_Z)) { cpu->cycles += 20; cpu_ret(cpu); return; } else { cpu->cycles += 8; }"),
        0xC1 => CForm::Text("cpu->bc = cpu_pop16(cpu); cpu->cycles += 12;"),
        0xC2 => CForm::AbsJump("if (!(cpu->f & FLAG_Z)) { cpu->cycles += 12; ", " } else { cpu->cycles += 12; }"),
        0xC3 => CForm::AbsJump("cpu->cycles += 16; ", ""),
        0xC4 => CForm::Call("if (!(cpu->f & FLAG_Z)) { cpu->cycles += 24; cpu_call(cpu, 0x", "); return; } else { cpu->cycles += 12; }"),
        0xC5 => CForm::Text("cpu_push16(cpu, cpu->bc); cpu->cycles += 16;"),
        0xC6 => CForm::Byte("cpu_add_a(cpu, 0x", "); cpu->cycles += 8;"),
        0xC7 => CForm::Next("cpu->cycles += 16; cpu_call(cpu, 0x0000, 0x", "); return;"),
        0xC8 => CForm::Text("if (cpu->f & FLAG_Z) { cpu->cycles += 20; cpu_ret(cpu); return; } else { cpu->cycles += 8; }"),
        0xC9 => CForm::Text("cpu->cycles += 16; cpu_ret(cpu); return;"),
        0xCA => CForm::AbsJump("if (cpu->f & FLAG_Z) { cpu->cycles += 12; ", " } else { cpu->cycles += 12; }"),
        0xCC => CForm::Call("if (cpu->f & FLAG_Z) { cpu->cycles += 24; cpu_call(cpu, 0x", "); return; } else { cpu->cycles += 12; }"),
        0xCD => CForm::Call("cpu->cycles += 24; cpu_call(cpu, 0x", "); return;"),
        0xCE => CForm::Byte("cpu_adc_a(cpu, 0x", "); cpu->cycles += 8;"),
        0xCF => CForm::Next("cpu->cycles += 16; cpu_call(cpu, 0x0008, 0x", "); return;"),
        0xD0 => CForm::Text("if (!(cpu->f & FLAG_C)) { cpu->cycles += 20; cpu_ret(cpu); return; } else { cpu->cycles += 8; }"),
        0xD1 => CForm::Text("cpu->de = cpu_pop16(cpu); cpu->cycles += 12;"),
        0xD2 => CForm::AbsJump("if (!(cpu->f & FLAG_C)) { cpu->cycles += 12; ", " } else { cpu->cycles += 12; }"),
        0xD4 => CForm::Call("if (!(cpu->f & FLAG_C)) { cpu->cycles += 24; cpu_call(cpu, 0x", "); return; } else { cpu->cycles += 12; }"),
        0xD5 => CForm::Text("cpu_push16(cpu, cpu->de); cpu->cycles += 16;"),
        0xD6 => CForm::Byte("cpu_sub_a(cpu, 0x", "); cpu->cycles += 8;"),
        0xD7 => CForm::Next("cpu->cycles += 16; cpu_call(cpu, 0x0010, 0x", "); return;"),
        0xD8 => CForm::Text("if (cpu->f & FLAG_C) { cpu->cycles += 20; cpu_ret(cpu); return; } else { cpu->cycles += 8; }"),
        0xD9 => CForm::Text("cpu->cycles += 16; cpu->ime = true; cpu_ret(cpu); return;"),
        0xDA => CForm::AbsJump("if (cpu->f & FLAG_C) { cpu->cycles += 12; ", " } else { cpu->cycles += 12; }"),
        0xDC => CForm::Call("if (cpu->f & FLAG_C) { cpu->cycles += 24; cpu_call(cpu, 0x", "); return; } else { cpu->cycles += 12; }"),
        0xDE => CForm::Byte("cpu_sbc_a(cpu, 0x", "); cpu->cycles += 8;"),
        0xDF => CForm::Next("cpu->cycles += 16; cpu_call(cpu, 0x0018, 0x", "); return;"),
        0xE0 => CForm::Byte("write8(cpu, 0xFF00 + 0x", ", cpu->a); cpu->cycles += 12;"),
        0xE1 => CForm::Text("cpu->hl = cpu_pop16(cpu); cpu->cycles += 12;"),
        0xE2 => CForm::Text("write8(cpu, 0xFF00 + cpu->c, cpu->a); cpu->cycles += 8;"),
        0xE5 => CForm::Text("cpu_push16(cpu, cpu->hl); cpu->cycles += 16;"),
        0xE6 => CForm::Byte("cpu_and_a(cpu, 0x", "); cpu->cycles += 8;"),
        0xE7 => CForm::Next("cpu->cycles += 16; cpu_call(cpu, 0x0020, 0x", "); return;"),
        0xE8 => CForm::Signed("cpu->sp = cpu_add_sp(cpu, ", "); cpu->cycles += 16;"),
        0xE9 => CForm::Text("cpu->cycles += 4; goto_pc(cpu, cpu->hl); return;"),
        0xEA => CForm::Word("write8(cpu, 0x", ", cpu->a); cpu->cycles += 16;"),
        0xEE => CForm::Byte("cpu_xor_a(cpu, 0x", "); cpu->cycles += 8;"),
        0xEF => CForm::Next("cpu->cycles += 16; cpu_call(cpu, 0x0028, 0x", "); return;"),
        0xF0 => CForm::Byte("cpu->a = read8(cpu, 0xFF00 + 0x", "); cpu->cycles += 12;"),
        0xF1 => CForm::Text("cpu->af = cpu_pop16(cpu) & 0xFFF0; cpu->cycles += 12;"),
        0xF2 => CForm::Text("cpu->a = read8(cpu, 0xFF00 + cpu->c); cpu->cycles += 8;"),
        0xF3 => CForm::Text("cpu->ime = false; cpu->cycles += 4;"),
        0xF5 => CForm::Text("cpu_push16(cpu, cpu->af); cpu->cycles += 16;"),
        0xF6 => CForm::Byte("cpu_or_a(cpu, 0x", "); cpu->cycles += 8;"),
        0xF7 => CForm::Next("cpu->cycles += 16; cpu_call(cpu, 0x0030, 0x", "); return;"),
        0xF8 => CForm::Signed("cpu->hl = cpu_add_sp(cpu, ", "); cpu->cycles += 12;"),
        0xF9 => CForm::Text("cpu->sp = cpu->hl; cpu->cycles += 8;"),
        0xFA => CForm::Word("cpu->a = read8(cpu, 0x", "); cpu->cycles += 16;"),
        0xFB => CForm::Text("cpu->ime = true; cpu->cycles += 4;"),
        0xFE => CForm::Byte("cpu_cp_a(cpu, 0x", "); cpu->cycles += 8;"),
        0xFF => CForm::Next("cpu->cycles += 16; cpu_call(cpu, 0x0038, 0x", "); return;"),
        _ => CForm::Unknown,
    }
}

/// C names of the registers, by the three-bit register field (6 is the byte at HL).
pub open spec fn c_reg(r: nat) -> Seq<char> {
    if r == 0 {
        "b"@
    } else if r == 1 {
        "c"@
    } else if r == 2 {
        "d"@
    } else if r == 3 {
        "e"@
    } else if r == 4 {
        "h"@
    } else if r == 5 {
        "l"@
    } else if r == 6 {
        "hl"@
    } else {
        "a"@
    }
}

fn c_reg_str(r: u8) -> (s: &'static str)
    ensures
        s@ == c_reg(r as nat),
{
    if r == 0 {
        "b"
    } else if r == 1 {
        "c"
    } else if r == 2 {
        "d"
    } else if r == 3 {
        "e"
    } else if r == 4 {
        "h"
    } else if r == 5 {
        "l"
    } else if r == 6 {
        "hl"
    } else {
        "a"
    }
}

/// The runtime helpers of the ALU operations 0x80..=0xBF, by operation.
pub open spec fn alu_fn(k: nat) -> Seq<char> {
    if k == 0 {
        "cpu_add_a"@
    } else if k == 1 {
        "cpu_adc_a"@
    } else if k == 2 {
        "cpu_sub_a"@
    } else if k == 3 {
        "cpu_sbc_a"@
    } else if k == 4 {
        "cpu_and_a"@
    } else if k == 5 {
        "cpu_xor_a"@
    } else if k == 6 {
        "cpu_or_a"@
    } else {
        "cpu_cp_a"@
    }
}

fn alu_fn_str(k: u8) -> (s: &'static str)
    ensures
        s@ == alu_fn(k as nat),
{
    if k == 0 {
        "cpu_add_a"
    } else if k == 1 {
        "cpu_adc_a"
    } else if k == 2 {
        "cpu_sub_a"
    } else if k == 3 {
        "cpu_sbc_a"
    } else if k == 4 {
        "cpu_and_a"
    } else if k == 5 {
        "cpu_xor_a"
    } else if k == 6 {
        "cpu_or_a"
    } else {
        "cpu_cp_a"
    }
}

/// The runtime helpers of the CB-prefixed rotates and shifts.
pub open spec fn shift_fn(k: nat) -> Seq<char> {
    if k == 0 {
        "cpu_rlc"@
    } else if k == 1 {
        "cpu_rrc"@
    } else if k == 2 {
        "cpu_rl"@
    } else if k == 3 {
        "cpu_rr"@
    } else if k == 4 {
        "cpu_sla"@
    } else if k == 5 {
        "cpu_sra"@
    } else if k == 6 {
        "cpu_swap"@
    } else {
        "cpu_srl"@
    }
}

fn shift_fn_str(k: u8) -> (s: &'static str)
    ensures
        s@ == shift_fn(k as nat),
{
    if k == 0 {
        "cpu_rlc"
    } else if k == 1 {
        "cpu_rrc"
    } else if k == 2 {
        "cpu_rl"
    } else if k == 3 {
        "cpu_rr"
    } else if k == 4 {
        "cpu_sla"
    } else if k == 5 {
        "cpu_sra"
    } else if k == 6 {
        "cpu_swap"
    } else {
        "cpu_srl"
    }
}

/// C expression reading the register (or the byte at HL) of field `r`.
pub open spec fn read_expr(r: nat) -> Seq<char> {
    if r == 6 {
        "read8(cpu, cpu->hl)"@
    } else {
        "cpu->"@ + c_reg(r)
    }
}

/// C statement of a register-to-register load 0x40..=0x7F (other than HALT).
pub open spec fn ld_c_text(op: u8) -> Seq<char> {
    let dest = ((op - 0x40) / 8) as nat;
    let src = (op % 8) as nat;
    if dest == 6 {
        "write8(cpu, cpu->hl, cpu->"@ + c_reg(src) + "); cpu->cycles += 8;"@
    } else if src == 6 {
        "cpu->"@ + c_reg(dest) + " = read8(cpu, cpu->hl); cpu->cycles += 8;"@
    } else {
        "cpu->"@ + c_reg(dest) + " = cpu->"@ + c_reg(src) + "; cpu->cycles += 4;"@
    }
}

/// C statement of an ALU operation 0x80..=0xBF.
pub open spec fn alu_c_text(op: u8) -> Seq<char> {
    let src = (op % 8) as nat;
    alu_fn(((op - 0x80) / 8) as nat) + "(cpu, "@ + read_expr(src) + "); cpu->cycles += "@ + (if src
        == 6 {
        "8"@
    } else {
        "4"@
    }) + ";"@
}

/// C statement storing `v` into the register (or the byte at HL) of field `r`.
pub open spec fn write_expr(r: nat, v: Seq<char>) -> Seq<char> {
    if r == 6 {
        "write8(cpu, cpu->hl, "@ + v + "); cpu->cycles += 16;"@
    } else {
        "cpu->"@ + c_reg(r) + " = "@ + v + "; cpu->cycles += 8;"@
    }
}

/// C statement of the CB-prefixed instruction whose second byte is `op`.
pub open spec fn cb_c_text(op: u8) -> Seq<char> {
    let r = (op % 8) as nat;
    let bit = ((op / 8) % 8) as nat;
    let group = op / 64;
    if group == 0 {
        write_expr(r, shift_fn(bit) + "(cpu, "@ + read_expr(r) + ")"@)
    } else if group == 1 {
        "cpu_bit(cpu, "@ + dec(bit) + ", "@ + read_expr(r) + "); cpu->cycles += "@ + (if r == 6 {
            "12"@
        } else {
            "8"@
        }) + ";"@
    } else if group == 2 {
        write_expr(r, "("@ + read_expr(r) + " & ~(1 << "@ + dec(bit) + "))"@)
    } else {
        write_expr(r, "("@ + read_expr(r) + " | (1 << "@ + dec(bit) + "))"@)
    }
}

/// The jump to target `t`: a `goto` to its label when it is in the same function,
/// otherwise a hand-over to the runtime and a return.
pub open spec fn goto_text(t: u16, bank: u16, local: bool) -> Seq<char> {
    if local {
        "goto loc_"@ + hex_min(bank as nat, 2) + "_"@ + hex_fixed(t as nat, 4) + ";"@
    } else {
        "goto_pc(cpu, 0x"@ + hex_fixed(t as nat, 4) + "); return;"@
    }
}

/// The statement text of a jump or branch opcode around its jump (empty for other opcodes).
pub open spec fn jump_frame(op: u8) -> (Seq<char>, Seq<char>) {
    match c_form(op) {
        CForm::RelJump(a, b) => (a@, b@),
        CForm::AbsJump(a, b) => (a@, b@),
        _ => (Seq::empty(), Seq::empty()),
    }
}

/// The C statement for the instruction `bytes` at `pc`, inside the function for `bank`
/// whose instruction addresses are `instrs`.
pub open spec fn c_text(bytes: Seq<u8>, pc: u16, bank: u16, instrs: Seq<u32>) -> Seq<char> {
    let op = bytes[0];
    let next = ((pc + bytes.len()) % 65536) as u16;
    if 0x40 <= op < 0x80 && op != 0x76 {
        ld_c_text(op)
    } else if 0x80 <= op < 0xC0 {
        alu_c_text(op)
    } else if op == 0xCB {
        cb_c_text(bytes[1])
    } else {
        match c_form(op) {
            CForm::Text(s) => s@,
            CForm::Byte(a, b) => a@ + hex_fixed(bytes[1] as nat, 2) + b@,
            CForm::Word(a, b) => a@ + hex_fixed(imm16(bytes) as nat, 4) + b@,
            CForm::Next(a, b) => a@ + hex_fixed(next as nat, 4) + b@,
            CForm::Signed(a, b) => a@ + dec_signed8(bytes[1]) + b@,
            CForm::Call(a, b) => a@ + hex_fixed(imm16(bytes) as nat, 4) + ", 0x"@ + hex_fixed(
                next as nat,
                4,
            ) + b@,
            CForm::RelJump(a, b) => {
                let t = rel_target(pc, bytes[1]);
                a@ + goto_text(t, bank, instrs.contains(abs_addr_spec(bank, t))) + b@
            },
            CForm::AbsJump(a, b) => {
                let t = imm16(bytes);
                a@ + goto_text(t, bank, instrs.contains(abs_addr_spec(bank, t))) + b@
            },
            CForm::Unknown => "// Unimplemented opcode 0x"@ + hex_fixed(op as nat, 2),
        }
    }
}

/// Whether `x` occurs in `s`.
pub fn slice_contains(s: &[u32], x: u32) -> (r: bool)
    ensures
        r == s@.contains(x),
{
    let mut i: usize = 0;
    while i < s.len()
        invariant
            i <= s@.len(),
            forall|j: int| 0 <= j < i ==> s@[j] != x,
        decreases s@.len() - i,
    {
        if s[i] == x {
            return true;
        }
        i = i + 1;
    }
    false
}

fn push_read_expr(s: &mut String, r: u8)
    requires
        r < 8,
    ensures
        final(s)@ == old(s)@ + read_expr(r as nat),
{
    if r == 6 {
        push_str(s, "read8(cpu, cpu->hl)");
    } else {
        push_str(s, "cpu->");
        push_str(s, c_reg_str(r));
        assert(old(s)@ + "cpu->"@ + c_reg(r as nat) == old(s)@ + ("cpu->"@ + c_reg(r as nat)));
    }
}

fn push_goto(s: &mut String, t: u16, bank: u16, local: bool)
    ensures
        final(s)@ == old(s)@ + goto_text(t, bank, local),
{
    let ghost s0 = s@;
    if local {
        push_str(s, "goto loc_");
        push_hex_min(s, bank as u64, 2);
        push_str(s, "_");
        push_hex_fixed(s, t as u64, 4);
        push_str(s, ";");
        assert(s@ == s0 + ("goto loc_"@ + hex_min(bank as nat, 2) + "_"@ + hex_fixed(t as nat, 4)
            + ";"@));
    } else {
        push_str(s, "goto_pc(cpu, 0x");
        push_hex_fixed(s, t as u64, 4);
        push_str(s, "); return;");
        assert(s@ == s0 + ("goto_pc(cpu, 0x"@ + hex_fixed(t as nat, 4) + "); return;"@));
    }
}

fn push_write_expr_open(s: &mut String, r: u8)
    requires
        r < 8,
    ensures
        final(s)@ == old(s)@ + (if r == 6 { "write8(cpu, cpu->hl, "@ } else { "cpu->"@ + c_reg(r as nat) + " = "@ }),
{
    if r == 6 {
        push_str(s, "write8(cpu, cpu->hl, ");
    } else {
        let ghost s0 = s@;
        push_str(s, "cpu->");
        push_str(s, c_reg_str(r));
        push_str(s, " = ");
        assert(s@ == s0 + ("cpu->"@ + c_reg(r as nat) + " = "@));
    }
}

fn push_write_expr_close(s: &mut String, r: u8)
    ensures
        final(s)@ == old(s)@ + (if r == 6 { "); cpu->cycles += 16;"@ } else { "; cpu->cycles += 8;"@ }),
{
    if r == 6 {
        push_str(s, "); cpu->cycles += 16;");
    } else {
        push_str(s, "; cpu->cycles += 8;");
    }
}

/// C statement of a CB-prefixed instruction, given its second byte.
pub fn translate_cb_to_c(op: u8) -> (r: String)
    ensures
        r@ == cb_c_text(op),
{
    let reg: u8 = op % 8;
    let bit: u8 = (op / 8) % 8;
    let group: u8 = op / 64;
    let mut s = String::new();
    let ghost rr = reg as nat;
    let ghost bb = bit as nat;
    if group == 0 {
        push_write_expr_open(&mut s, reg);
        let ghost open = s@;
        push_str(&mut s, shift_fn_str(bit));
        push_str(&mut s, "(cpu, ");
        push_read_expr(&mut s, reg);
        push_str(&mut s, ")");
        let ghost v = shift_fn(bb) + "(cpu, "@ + read_expr(rr) + ")"@;
        assert(s@ == open + v);
        push_write_expr_close(&mut s, reg);
        proof {
            if reg == 6 {
                assert(s@ == "write8(cpu, cpu->hl, "@ + v + "); cpu->cycles += 16;"@);
            } else {
                assert(s@ == "cpu->"@ + c_reg(rr) + " = "@ + v + "; cpu->cycles += 8;"@);
            }
        }
    } else if group == 1 {
        push_str(&mut s, "cpu_bit(cpu, ");
        push_dec(&mut s, bit as u64);
        push_str(&mut s, ", ");
        push_read_expr(&mut s, reg);
        push_str(&mut s, "); cpu->cycles += ");
        if reg == 6 {
            push_str(&mut s, "12");
        } else {
            push_str(&mut s, "8");
        }
        push_str(&mut s, ";");
        assert(s@ == "cpu_bit(cpu, "@ + dec(bb) + ", "@ + read_expr(rr) + "); cpu->cycles += "@ + (if rr == 6 {
            "12"@
        } else {
            "8"@
        }) + ";"@);
    } else {
        push_write_expr_open(&mut s, reg);
        let ghost open = s@;
        push_str(&mut s, "(");
        push_read_expr(&mut s, reg);
        if group == 2 {
            push_str(&mut s, " & ~(1 << ");
        } else {
            push_str(&mut s, " | (1 << ");
        }
        push_dec(&mut s, bit as u64);
        push_str(&mut s, "))");
        let ghost v = "("@ + read_expr(rr) + (if group == 2 { " & ~(1 << "@ } else { " | (1 << "@ }) + dec(bb) + "))"@;
        assert(s@ == open + v);
        push_write_expr_close(&mut s, reg);
        proof {
            if reg == 6 {
                assert(s@ == "write8(cpu, cpu->hl, "@ + v + "); cpu->cycles += 16;"@);
            } else {
                assert(s@ == "cpu->"@ + c_reg(rr) + " = "@ + v + "; cpu->cycles += 8;"@);
            }
        }
    }
    s
}

fn ld_to_c(op: u8) -> (r: String)
    requires
        0x40 <= op < 0x80,
    ensures
        r@ == ld_c_text(op),
{
    let dest: u8 = (op - 0x40) / 8;
    let src: u8 = op % 8;
    let mut s = String::new();
    if dest == 6 {
        push_str(&mut s, "write8(cpu, cpu->hl, cpu->");
        push_str(&mut s, c_reg_str(src));
        push_str(&mut s, "); cpu->cycles += 8;");
    } else if src == 6 {
        push_str(&mut s, "cpu->");
        push_str(&mut s, c_reg_str(dest));
        push_str(&mut s, " = read8(cpu, cpu->hl); cpu->cycles += 8;");
    } else {
        push_str(&mut s, "cpu->");
        push_str(&mut s, c_reg_str(dest));
        push_str(&mut s, " = cpu->");
        push_str(&mut s, c_reg_str(src));
        push_str(&mut s, "; cpu->cycles += 4;");
    }
    s
}

fn alu_to_c(op: u8) -> (r: String)
    requires
        0x80 <= op < 0xC0,
    ensures
        r@ == alu_c_text(op),
{
    let src: u8 = op % 8;
    let mut s = String::from_str(alu_fn_str((op - 0x80) / 8));
    push_str(&mut s, "(cpu, ");
    push_read_expr(&mut s, src);
    push_str(&mut s, "); cpu->cycles += ");
    if src == 6 {
        push_str(&mut s, "8");
    } else {
        push_str(&mut s, "4");
    }
    push_str(&mut s, ";");
    s
}

/// The C statement for `inst`, inside the function for `current_bank` whose instruction
/// addresses are `instrs` (jumps to those become `goto`s).
pub fn translate_to_c(inst: &DecodedInstruction, current_bank: u16, instrs: &[u32]) -> (r: String)
    requires
        inst.bytes@.len() >= 1,
        inst.bytes@.len() >= opcode_len(inst.bytes@[0]),
    ensures
        r@ == c_text(inst.bytes@, inst.pc, current_bank, instrs@),
{
    let op = inst.bytes[0];
    let len16: u32 = (inst.bytes.len() % 65536) as u32;
    let next: u16 = ((inst.pc as u32 + len16) % 65536) as u16;
    if 0x40 <= op && op < 0x80 && op != 0x76 {
        return ld_to_c(op);
    }
    if 0x80 <= op && op < 0xC0 {
        return alu_to_c(op);
    }
    if op == 0xCB {
        return translate_cb_to_c(inst.bytes[1]);
    }
    let ghost bytes = inst.bytes@;
    let mut s = String::new();
    match c_form_exec(op) {
        CForm::Text(t) => {
            push_str(&mut s, t);
        },
        CForm::Byte(a, b) => {
            push_str(&mut s, a);
            push_hex_fixed(&mut s, inst.bytes[1] as u64, 2);
            push_str(&mut s, b);
        },
        CForm::Word(a, b) => {
            push_str(&mut s, a);
            push_hex_fixed(&mut s, (inst.bytes[1] as u16 + inst.bytes[2] as u16 * 256) as u64, 4);
            push_str(&mut s, b);
        },
        CForm::Next(a, b) => {
            push_str(&mut s, a);
            push_hex_fixed(&mut s, next as u64, 4);
            push_str(&mut s, b);
        },
        CForm::Signed(a, b) => {
            push_str(&mut s, a);
            push_dec_signed8(&mut s, inst.bytes[1]);
            push_str(&mut s, b);
        },
        CForm::Call(a, b) => {
            push_str(&mut s, a);
            push_hex_fixed(&mut s, (inst.bytes[1] as u16 + inst.bytes[2] as u16 * 256) as u64, 4);
            push_str(&mut s, ", 0x");
            push_hex_fixed(&mut s, next as u64, 4);
            push_str(&mut s, b);
        },
        CForm::RelJump(a, b) => {
            let t = relative_target(inst.pc, inst.bytes[1]);
            let local = slice_contains(instrs, get_abs_addr(current_bank, t));
            push_str(&mut s, a);
            push_goto(&mut s, t, current_bank, local);
            push_str(&mut s, b);
        },
        CForm::AbsJump(a, b) => {
            let t: u16 = inst.bytes[1] as u16 + inst.bytes[2] as u16 * 256;
            let local = slice_contains(instrs, get_abs_addr(current_bank, t));
            push_str(&mut s, a);
            push_goto(&mut s, t, current_bank, local);
            push_str(&mut s, b);
        },
        CForm::Unknown => {
            push_str(&mut s, "// Unimplemented opcode 0x");
            push_hex_fixed(&mut s, op as u64, 2);
        },
    }
    proof {
        assert(Seq::<char>::empty() + c_text(bytes, inst.pc, current_bank, instrs@) == c_text(bytes, inst.pc, current_bank, instrs@));
    }
    s
}

/// Bank of a function at absolute address `a` (its C name's first number).
pub open spec fn func_bank(a: u32) -> u16 {
    ((a / 16384) % 65536) as u16
}

/// 16-bit address of a function at absolute address `a` (its C name's second number).
pub open spec fn func_pc(a: u32) -> u16 {
    (if a < 0x4000 { a as int } else { a % 16384 + 0x4000 }) as u16
}

/// C name of the function at absolute address `a`.
pub open spec fn func_name(a: u32) -> Seq<char> {
    "fn_"@ + hex_min(func_bank(a) as nat, 2) + "_"@ + hex_fixed(func_pc(a) as nat, 4)
}

fn func_bank_exec(a: u32) -> (b: u16)
    ensures
        b == func_bank(a),
{
    ((a / 16384) % 65536) as u16
}

fn func_pc_exec(a: u32) -> (p: u16)
    ensures
        p == func_pc(a),
{
    if a < 0x4000 {
        a as u16
    } else {
        (a % 16384 + 0x4000) as u16
    }
}

fn push_func_name(s: &mut String, a: u32)
    ensures
        final(s)@ == old(s)@ + func_name(a),
{
    let ghost s0 = s@;
    push_str(s, "fn_");
    push_hex_min(s, func_bank_exec(a) as u64, 2);
    push_str(s, "_");
    push_hex_fixed(s, func_pc_exec(a) as u64, 4);
    assert(s@ =~= s0 + func_name(a));
}

/// Declarations of the functions `funcs`, one line each.
pub open spec fn decl_lines(funcs: Seq<u32>) -> Seq<char>
    decreases funcs.len(),
{
    if funcs.len() == 0 {
        Seq::empty()
    } else {
        decl_lines(funcs.drop_last()) + "void "@ + func_name(funcs.last()) + "(CPUState* cpu);\n"@
    }
}

/// The text of game.h.
pub open spec fn game_h_text(title: Seq<char>, is_gbc: bool, funcs: Seq<u32>) -> Seq<char> {
    "#ifndef GAME_H\n#define GAME_H\n#include \"runtime.h\"\n\n// Game Name: "@ + title + "\n// Mode: "@
        + (if is_gbc { "GBC"@ } else { "DMG"@ }) + "\n\n// --- Subroutine Declarations ---\n"@
        + decl_lines(funcs) + "\n#endif // GAME_H\n"@
}

/// Writes game.h: the title, the mode and a declaration for every function.
pub fn write_game_h(w: &mut String, rom: &RomInfo, func_groups: &BTreeMap<u32, Vec<u32>>)
    ensures
        final(w)@ == old(w)@ + game_h_text(rom.title@, rom.is_gbc, sorted_listing(func_groups@.dom())),
{
    let keys = sorted_keys(func_groups);
    proof {
        lemma_sorted_listing(keys@, func_groups@.dom());
    }
    let ghost w0 = w@;
    push_str(w, "#ifndef GAME_H\n#define GAME_H\n#include \"runtime.h\"\n\n// Game Name: ");
    push_str(w, rom.title.as_str());
    push_str(w, "\n// Mode: ");
    if rom.is_gbc {
        push_str(w, "GBC");
    } else {
        push_str(w, "DMG");
    }
    push_str(w, "\n\n// --- Subroutine Declarations ---\n");
    let ghost head = w@;
    let mut i: usize = 0;
    while i < keys.len()
        invariant
            i <= keys@.len(),
            w@ == head + decl_lines(keys@.take(i as int)),
        decreases keys@.len() - i,
    {
        let ghost before = w@;
        push_str(w, "void ");
        push_func_name(w, keys[i]);
        push_str(w, "(CPUState* cpu);\n");
        proof {
            let t = keys@.take(i + 1);
            assert(t.drop_last() == keys@.take(i as int));
            assert(w@ =~= head + decl_lines(t));
        }
        i = i + 1;
    }
    push_str(w, "\n#endif // GAME_H\n");
    proof {
        assert(keys@.take(keys@.len() as int) == keys@);
        assert(w@ =~= w0 + game_h_text(rom.title@, rom.is_gbc, keys@));
    }
}

/// One `case` of the dispatcher.
pub open spec fn case_lines(funcs: Seq<u32>) -> Seq<char>
    decreases funcs.len(),
{
    if funcs.len() == 0 {
        Seq::empty()
    } else {
        case_lines(funcs.drop_last()) + "        case 0x"@ + hex_fixed(funcs.last() as nat, 8) + ": "@
            + func_name(funcs.last()) + "(cpu); break;\n"@
    }
}

/// The text of dispatcher.c.
pub open spec fn dispatcher_c_text(funcs: Seq<u32>) -> Seq<char> {
    "#include \"game.h\"\n#include \"runtime.h\"\n\nvoid dispatch(CPUState* cpu, uint16_t bank, uint16_t pc) {\n    uint32_t abs_addr = get_abs_addr(bank, pc);\n    switch (abs_addr) {\n"@
        + case_lines(funcs) + "        default:\n            break;\n    }\n}\n"@
}

/// Writes dispatcher.c: a switch from absolute address to function.
pub fn write_dispatcher_c(w: &mut String, func_groups: &BTreeMap<u32, Vec<u32>>)
    ensures
        final(w)@ == old(w)@ + dispatcher_c_text(sorted_listing(func_groups@.dom())),
{
    let keys = sorted_keys(func_groups);
    proof {
        lemma_sorted_listing(keys@, func_groups@.dom());
    }
    let ghost w0 = w@;
    push_str(w, "#include \"game.h\"\n#include \"runtime.h\"\n\nvoid dispatch(CPUState* cpu, uint16_t bank, uint16_t pc) {\n    uint32_t abs_addr = get_abs_addr(bank, pc);\n    switch (abs_addr) {\n");
    let ghost head = w@;
    let mut i: usize = 0;
    while i < keys.len()
        invariant
            i <= keys@.len(),
            w@ == head + case_lines(keys@.take(i as int)),
        decreases keys@.len() - i,
    {
        push_str(w, "        case 0x");
        push_hex_fixed(w, keys[i] as u64, 8);
        push_str(w, ": ");
        push_func_name(w, keys[i]);
        push_str(w, "(cpu); break;\n");
        proof {
            let t = keys@.take(i + 1);
            assert(t.drop_last() == keys@.take(i as int));
            assert(w@ =~= head + case_lines(t));
        }
        i = i + 1;
    }
    push_str(w, "        default:\n            break;\n    }\n}\n");
    proof {
        assert(keys@.take(keys@.len() as int) == keys@);
        assert(w@ =~= w0 + dispatcher_c_text(keys@));
    }
}

/// The array entry for byte `b` at index `i`: sixteen per line.
pub open spec fn byte_entry(i: int, b: u8) -> Seq<char> {
    (if i % 16 == 0 { "    "@ } else { Seq::empty() }) + "0x"@ + hex_fixed(b as nat, 2) + ", "@ + (if i % 16
        == 15 {
        "\n"@
    } else {
        Seq::empty()
    })
}

/// The array entries of all of `data`.
pub open spec fn byte_entries(data: Seq<u8>) -> Seq<char>
    decreases data.len(),
{
    if data.len() == 0 {
        Seq::empty()
    } else {
        byte_entries(data.drop_last()) + byte_entry(data.len() - 1, data.last())
    }
}

/// The lines of rom_data.c after the byte array.
pub open spec fn rom_facts_text(len: nat, title: Seq<char>, is_gbc: bool, cartridge_type: u8, ram_size: nat) -> Seq<char> {
    "\n};\n"@ + "const size_t g_rom_size = "@ + dec(len) + ";\n"@
        + "const char* g_rom_title = \""@ + title + "\";\n"@ + "const uint8_t g_rom_is_gbc = "@
        + (if is_gbc { "1"@ } else { "0"@ }) + ";\n"@ + "const uint8_t g_rom_cartridge_type = "@ + dec(
        cartridge_type as nat,
    ) + ";\n"@ + "const size_t g_rom_ram_size = "@ + dec(ram_size) + ";\n"@
}

/// The text of rom_data.c.
pub open spec fn rom_data_c_text(
    data: Seq<u8>,
    title: Seq<char>,
    is_gbc: bool,
    cartridge_type: u8,
    ram_size: nat,
) -> Seq<char> {
    "#include <stdint.h>\n#include <stddef.h>\n\nconst uint8_t g_rom_data[] = {\n"@ + byte_entries(data)
        + rom_facts_text(data.len(), title, is_gbc, cartridge_type, ram_size)
}

fn push_rom_facts(w: &mut String, len: usize, title: &String, is_gbc: bool, cartridge_type: u8, ram_size: usize)
    ensures
        final(w)@ == old(w)@ + rom_facts_text(len as nat, title@, is_gbc, cartridge_type, ram_size as nat),
{
    let ghost w0 = w@;
    push_str(w, "\n};\n");
    push_str(w, "const size_t g_rom_size = ");
    push_dec(w, len as u64);
    push_str(w, ";\n");
    push_str(w, "const char* g_rom_title = \"");
    push_str(w, title.as_str());
    push_str(w, "\";\n");
    push_str(w, "const uint8_t g_rom_is_gbc = ");
    if is_gbc {
        push_str(w, "1");
    } else {
        push_str(w, "0");
    }
    push_str(w, ";\n");
    push_str(w, "const uint8_t g_rom_cartridge_type = ");
    push_dec(w, cartridge_type as u64);
    push_str(w, ";\n");
    push_str(w, "const size_t g_rom_ram_size = ");
    push_dec(w, ram_size as u64);
    push_str(w, ";\n");
    assert(w@ =~= w0 + rom_facts_text(len as nat, title@, is_gbc, cartridge_type, ram_size as nat));
}

/// Writes rom_data.c: the ROM bytes as a C array, and the header facts.
pub fn write_rom_data_c(w: &mut String, rom: &RomInfo)
    ensures
        final(w)@ == old(w)@ + rom_data_c_text(
            rom.rom_data@,
            rom.title@,
            rom.is_gbc,
            rom.cartridge_type,
            rom.ram_size as nat,
        ),
{
    let ghost w0 = w@;
    push_str(w, "#include <stdint.h>\n#include <stddef.h>\n\nconst uint8_t g_rom_data[] = {\n");
    let ghost head = w@;
    let data = &rom.rom_data;
    let mut i: usize = 0;
    while i < data.len()
        invariant
            i <= data@.len(),
            data@ == rom.rom_data@,
            w@ == head + byte_entries(data@.take(i as int)),
        decreases data@.len() - i,
    {
        let ghost before = w@;
        if i % 16 == 0 {
            push_str(w, "    ");
        }
        push_str(w, "0x");
        push_hex_fixed(w, data[i] as u64, 2);
        push_str(w, ", ");
        if i % 16 == 15 {
            push_str(w, "\n");
        }
        proof {
            let t = data@.take(i + 1);
            assert(t.drop_last() == data@.take(i as int));
            assert(w@ =~= before + byte_entry(i as int, data@[i as int]));
            assert(w@ =~= head + byte_entries(t));
        }
        i = i + 1;
    }
    push_rom_facts(w, data.len(), &rom.title, rom.is_gbc, rom.cartridge_type, rom.ram_size);
    proof {
        assert(data@.take(data@.len() as int) == data@);
        assert(w@ =~= w0 + rom_data_c_text(
            rom.rom_data@,
            rom.title@,
            rom.is_gbc,
            rom.cartridge_type,
            rom.ram_size as nat,
        ));
    }
}

/// An instruction whose bytes hold its whole encoding.
pub open spec fn well_formed(inst: DecodedInstruction) -> bool {
    inst.bytes@.len() >= 1 && inst.bytes@.len() >= opcode_len(inst.bytes@[0])
}

/// Every address of every group is a decoded, well-formed instruction.
pub open spec fn groups_well_formed(
    groups: Map<u32, Vec<u32>>,
    instrs: Map<u32, DecodedInstruction>,
) -> bool {
    forall|f: u32, j: int|
        #![trigger groups[f]@[j]]
        groups.dom().contains(f) && 0 <= j < groups[f]@.len() ==> instrs.dom().contains(groups[f]@[j])
            && well_formed(instrs[groups[f]@[j]])
}

/// The hardware is synchronised before control flow and before writes to 0xFFxx or an
/// absolute address.
pub open spec fn needs_sync(inst: DecodedInstruction) -> bool {
    inst.flow != FlowControl::Normal || inst.bytes@[0] == 0xEA || inst.bytes@[0] == 0xE0
        || inst.bytes@[0] == 0xE2
}

/// Address following `inst`, modulo 2^16.
pub open spec fn after_instr(inst: DecodedInstruction) -> u16 {
    ((inst.pc + inst.bytes@.len()) % 65536) as u16
}

/// The lines for instruction `inst` at absolute address `a` of a function in `bank`, whose
/// addresses are `group`, when the previous instruction ended at `expected`: a label when
/// it is a jump target or does not follow on, the synchronisation, and its statement.
pub open spec fn instr_text(
    inst: DecodedInstruction,
    a: u32,
    targets: Set<u32>,
    bank: u16,
    group: Seq<u32>,
    expected: u16,
) -> Seq<char> {
    (if targets.contains(a) || inst.pc != expected {
        "loc_"@ + hex_min(bank as nat, 2) + "_"@ + hex_fixed(inst.pc as nat, 4) + ":\n"@
    } else {
        Seq::empty()
    }) + (if needs_sync(inst) {
        "    cpu->pc = 0x"@ + hex_fixed(inst.pc as nat, 4) + ";\n    sync_hardware(cpu);\n    if (cpu->pc != 0x"@
            + hex_fixed(inst.pc as nat, 4) + ") return;\n"@
    } else {
        Seq::empty()
    }) + "    "@ + c_text(inst.bytes@, inst.pc, bank, group) + " // "@ + inst.mnemonic@ + "\n"@
}

/// Where the code of `addrs` ends, starting from `start`.
pub open spec fn end_of(instrs: Map<u32, DecodedInstruction>, addrs: Seq<u32>, start: u16) -> u16 {
    if addrs.len() == 0 {
        start
    } else {
        after_instr(instrs[addrs.last()])
    }
}

/// The lines of the instructions at `addrs`.
pub open spec fn instr_lines(
    instrs: Map<u32, DecodedInstruction>,
    targets: Set<u32>,
    bank: u16,
    group: Seq<u32>,
    addrs: Seq<u32>,
    start: u16,
) -> Seq<char>
    decreases addrs.len(),
{
    if addrs.len() == 0 {
        Seq::empty()
    } else {
        instr_lines(instrs, targets, bank, group, addrs.drop_last(), start) + instr_text(
            instrs[addrs.last()],
            addrs.last(),
            targets,
            bank,
            group,
            end_of(instrs, addrs.drop_last(), start),
        )
    }
}

/// The C function for function `f`, whose addresses are `group`.
pub open spec fn function_text(
    instrs: Map<u32, DecodedInstruction>,
    targets: Set<u32>,
    f: u32,
    group: Seq<u32>,
) -> Seq<char> {
    "void "@ + func_name(f) + "(CPUState* cpu) {\n"@ + instr_lines(
        instrs,
        targets,
        func_bank(f),
        group,
        group,
        func_pc(f),
    ) + "    cpu->pc = 0x"@ + hex_fixed(end_of(instrs, group, func_pc(f)) as nat, 4) + ";\n}\n\n"@
}

/// The C functions for `funcs`.
pub open spec fn function_texts(
    instrs: Map<u32, DecodedInstruction>,
    targets: Set<u32>,
    groups: Map<u32, Seq<u32>>,
    funcs: Seq<u32>,
) -> Seq<char>
    decreases funcs.len(),
{
    if funcs.len() == 0 {
        Seq::empty()
    } else {
        function_texts(instrs, targets, groups, funcs.drop_last()) + function_text(
            instrs,
            targets,
            funcs.last(),
            groups[funcs.last()],
        )
    }
}

/// The address lists of a grouping, as sequences.
pub open spec fn group_views(groups: Map<u32, Vec<u32>>) -> Map<u32, Seq<u32>> {
    groups.map_values(|v: Vec<u32>| v@)
}

/// The text of game.c.
pub open spec fn game_c_text(
    groups: Map<u32, Seq<u32>>,
    instrs: Map<u32, DecodedInstruction>,
    targets: Set<u32>,
) -> Seq<char> {
    "#include \"game.h\"\n#include \"runtime.h\"\n\n"@ + function_texts(
        instrs,
        targets,
        groups,
        sorted_listing(groups.dom()),
    )
}

fn write_instr(
    w: &mut String,
    inst: &DecodedInstruction,
    a: u32,
    is_target: bool,
    bank: u16,
    group: &Vec<u32>,
    expected: u16,
    Ghost(targets): Ghost<Set<u32>>,
)
    requires
        well_formed(*inst),
        is_target == targets.contains(a),
    ensures
        final(w)@ == old(w)@ + instr_text(*inst, a, targets, bank, group@, expected),
{
    let ghost w0 = w@;
    if is_target || inst.pc != expected {
        push_str(w, "loc_");
        push_hex_min(w, bank as u64, 2);
        push_str(w, "_");
        push_hex_fixed(w, inst.pc as u64, 4);
        push_str(w, ":\n");
    }
    let ghost w1 = w@;
    let op = inst.bytes[0];
    if inst.flow != FlowControl::Normal || op == 0xEA || op == 0xE0 || op == 0xE2 {
        push_str(w, "    cpu->pc = 0x");
        push_hex_fixed(w, inst.pc as u64, 4);
        push_str(w, ";\n    sync_hardware(cpu);\n    if (cpu->pc != 0x");
        push_hex_fixed(w, inst.pc as u64, 4);
        push_str(w, ") return;\n");
    }
    let ghost w2 = w@;
    let code = translate_to_c(inst, bank, group.as_slice());
    push_str(w, "    ");
    push_str(w, code.as_str());
    push_str(w, " // ");
    push_str(w, inst.mnemonic.as_str());
    push_str(w, "\n");
    proof {
        let label = if targets.contains(a) || inst.pc != expected {
            "loc_"@ + hex_min(bank as nat, 2) + "_"@ + hex_fixed(inst.pc as nat, 4) + ":\n"@
        } else {
            Seq::empty()
        };
        assert(w1 =~= w0 + label);
        let sync = if needs_sync(*inst) {
            "    cpu->pc = 0x"@ + hex_fixed(inst.pc as nat, 4) + ";\n    sync_hardware(cpu);\n    if (cpu->pc != 0x"@
                + hex_fixed(inst.pc as nat, 4) + ") return;\n"@
        } else {
            Seq::empty()
        };
        assert(w2 =~= w1 + sync);
        assert(w@ =~= w0 + instr_text(*inst, a, targets, bank, group@, expected));
    }
}

proof fn lemma_instr_lines_step(
    instrs: Map<u32, DecodedInstruction>,
    targets: Set<u32>,
    bank: u16,
    group: Seq<u32>,
    i: int,
    start: u16,
)
    requires
        0 <= i < group.len(),
    ensures
        instr_lines(instrs, targets, bank, group, group.take(i + 1), start) == instr_lines(
            instrs,
            targets,
            bank,
            group,
            group.take(i),
            start,
        ) + instr_text(
            instrs[group[i]],
            group[i],
            targets,
            bank,
            group,
            end_of(instrs, group.take(i), start),
        ),
        end_of(instrs, group.take(i + 1), start) == after_instr(instrs[group[i]]),
{
    let t = group.take(i + 1);
    assert(t.drop_last() == group.take(i));
    assert(t.last() == group[i]);
}

/// Writes the lines of the decoded instruction at `a` and returns where it ends.
fn write_listed_instr(
    w: &mut String,
    a: u32,
    bank: u16,
    group: &Vec<u32>,
    expected: u16,
    disasm: &DisasmResult,
) -> (next: u16)
    requires
        disasm.instructions@.dom().contains(a),
        well_formed(disasm.instructions@[a]),
    ensures
        final(w)@ == old(w)@ + instr_text(disasm.instructions@[a], a, disasm.jump_targets@, bank, group@, expected),
        next == after_instr(disasm.instructions@[a]),
{
    proof {
        crate::order::lemma_u32_keys_ordered();
    }
    let is_target = disasm.jump_targets.contains(&a);
    match disasm.instructions.get(&a) {
        Some(inst) => {
            write_instr(w, inst, a, is_target, bank, group, expected, Ghost(disasm.jump_targets@));
            let len16: u32 = (inst.bytes.len() % 65536) as u32;
            ((inst.pc as u32 + len16) % 65536) as u16
        },
        None => expected,
    }
}

/// Writes the C function for function `f`, whose addresses are `group`.
fn write_function(w: &mut String, f: u32, group: &Vec<u32>, disasm: &DisasmResult)
    requires
        forall|j: int| 0 <= j < group@.len() ==> disasm.instructions@.dom().contains(#[trigger] group@[j])
            && well_formed(disasm.instructions@[group@[j]]),
    ensures
        final(w)@ == old(w)@ + function_text(disasm.instructions@, disasm.jump_targets@, f, group@),
{
    proof {
        crate::order::lemma_u32_keys_ordered();
    }
    let ghost w0 = w@;
    let ghost instrs = disasm.instructions@;
    let ghost targets = disasm.jump_targets@;
    let bank = func_bank_exec(f);
    let pc = func_pc_exec(f);
    push_str(w, "void ");
    push_func_name(w, f);
    push_str(w, "(CPUState* cpu) {\n");
    let ghost head = w@;
    let mut expected = pc;
    let mut i: usize = 0;
    while i < group.len()
        invariant
            i <= group@.len(),
            instrs == disasm.instructions@,
            targets == disasm.jump_targets@,
            forall|j: int| 0 <= j < group@.len() ==> disasm.instructions@.dom().contains(#[trigger] group@[j])
                && well_formed(disasm.instructions@[group@[j]]),
            expected == end_of(instrs, group@.take(i as int), pc),
            w@ == head + instr_lines(instrs, targets, bank, group@, group@.take(i as int), pc),
        decreases group@.len() - i,
    {
        proof {
            crate::order::lemma_u32_keys_ordered();
        }
        let a = group[i];
        expected = write_listed_instr(w, a, bank, group, expected, disasm);
        proof {
            lemma_instr_lines_step(instrs, targets, bank, group@, i as int, pc);
            assert(w@ =~= head + instr_lines(instrs, targets, bank, group@, group@.take(i + 1), pc));
        }
        i = i + 1;
    }
    push_str(w, "    cpu->pc = 0x");
    push_hex_fixed(w, expected as u64, 4);
    push_str(w, ";\n}\n\n");
    proof {
        assert(group@.take(group@.len() as int) == group@);
        assert(w@ =~= w0 + function_text(instrs, targets, f, group@));
    }
}

/// Writes game.c: one C function per function, with the statements of its instructions.
pub fn write_game_c(w: &mut String, func_groups: &BTreeMap<u32, Vec<u32>>, disasm: &DisasmResult)
    requires
        groups_well_formed(func_groups@, disasm.instructions@),
    ensures
        final(w)@ == old(w)@ + game_c_text(group_views(func_groups@), disasm.instructions@, disasm.jump_targets@),
{
    proof {
        crate::order::lemma_u32_keys_ordered();
    }
    let keys = sorted_keys(func_groups);
    proof {
        lemma_sorted_listing(keys@, func_groups@.dom());
    }
    let ghost w0 = w@;
    let ghost instrs = disasm.instructions@;
    let ghost targets = disasm.jump_targets@;
    let ghost groups = group_views(func_groups@);
    push_str(w, "#include \"game.h\"\n#include \"runtime.h\"\n\n");
    let ghost head = w@;
    let mut i: usize = 0;
    while i < keys.len()
        invariant
            i <= keys@.len(),
            keys@.to_set() == groups.dom(),
            groups == group_views(func_groups@),
            instrs == disasm.instructions@,
            targets == disasm.jump_targets@,
            groups_well_formed(func_groups@, disasm.instructions@),
            w@ == head + function_texts(instrs, targets, groups, keys@.take(i as int)),
        decreases keys@.len() - i,
    {
        proof {
            crate::order::lemma_u32_keys_ordered();
        }
        let f = keys[i];
        proof {
            assert(keys@.to_set().contains(f));
        }
        match func_groups.get(&f) {
            Some(group) => {
                proof {
                    assert forall|j: int| 0 <= j < group@.len() implies disasm.instructions@.dom().contains(#[trigger] group@[j])
                        && well_formed(disasm.instructions@[group@[j]]) by {
                        assert(func_groups@[f]@[j] == group@[j]);
                    }
                }
                write_function(w, f, group, disasm);
            },
            None => {},
        }
        proof {
            let t = keys@.take(i + 1);
            assert(t.drop_last() == keys@.take(i as int));
            assert(t.last() == f);
            assert(w@ =~= head + function_texts(instrs, targets, groups, t));
        }
        i = i + 1;
    }
    proof {
        assert(keys@.take(keys@.len() as int) == keys@);
        assert(w@ =~= w0 + game_c_text(groups, instrs, targets));
    }
}

/// The four generated C sources.
pub struct CProject {
    pub game_h: String,
    pub game_c: String,
    pub dispatcher_c: String,
    pub rom_data_c: String,
}

/// Every decoded instruction is well formed.
pub open spec fn instructions_well_formed(instrs: Map<u32, DecodedInstruction>) -> bool {
    forall|a: u32| #[trigger] instrs.dom().contains(a) ==> well_formed(instrs[a])
}

/// The functions of a disassembly: each function (see `owner`) with its addresses in
/// increasing order.
pub open spec fn function_groups(instrs: Map<u32, DecodedInstruction>, entries: Set<u32>) -> Map<u32, Seq<u32>> {
    let k = instrs.dom();
    Map::new(
        |f: u32| exists|a: u32| k.contains(a) && owner(k, entries, a) == f,
        |f: u32| sorted_listing(k).filter(owned_by(k, entries, f)),
    )
}

/// Whether every decoded instruction holds its whole encoding (as the instructions that
/// `analyze_rom` decodes do).
pub fn is_well_formed(disasm: &DisasmResult) -> (r: bool)
    ensures
        r == instructions_well_formed(disasm.instructions@),
{
    proof {
        crate::order::lemma_u32_keys_ordered();
    }
    let keys = sorted_keys(&disasm.instructions);
    let mut i: usize = 0;
    while i < keys.len()
        invariant
            i <= keys@.len(),
            keys@.to_set() == disasm.instructions@.dom(),
            forall|j: int| 0 <= j < i ==> well_formed(disasm.instructions@[#[trigger] keys@[j]]),
        decreases keys@.len() - i,
    {
        proof {
            crate::order::lemma_u32_keys_ordered();
        }
        let a = keys[i];
        proof {
            assert(keys@.to_set().contains(a));
        }
        match disasm.instructions.get(&a) {
            Some(inst) => {
                let n = inst.bytes.len();
                if n < 1 || n < instruction_len(inst.bytes[0]) {
                    return false;
                }
            },
            None => {},
        }
        i = i + 1;
    }
    proof {
        assert forall|a: u32| #[trigger] disasm.instructions@.dom().contains(a) implies well_formed(disasm.instructions@[a]) by {
            assert(keys@.to_set().contains(a));
            let j = choose|j: int| 0 <= j < keys@.len() && keys@[j] == a;
            assert(well_formed(disasm.instructions@[keys@[j]]));
        }
    }
    true
}

/// Generates the C sources for a ROM and its disassembly: game.h, game.c, dispatcher.c and
/// rom_data.c.
pub fn generate_c_project(rom: &RomInfo, disasm: &DisasmResult) -> (p: CProject)
    requires
        instructions_well_formed(disasm.instructions@),
    ensures
        ({
            let fg = function_groups(disasm.instructions@, disasm.function_entries@);
            &&& p.game_h@ == game_h_text(rom.title@, rom.is_gbc, sorted_listing(fg.dom()))
            &&& p.game_c@ == game_c_text(fg, disasm.instructions@, disasm.jump_targets@)
            &&& p.dispatcher_c@ == dispatcher_c_text(sorted_listing(fg.dom()))
            &&& p.rom_data_c@ == rom_data_c_text(
                rom.rom_data@,
                rom.title@,
                rom.is_gbc,
                rom.cartridge_type,
                rom.ram_size as nat,
            )
        }),
{
    let func_groups = group_functions(&disasm.instructions, &disasm.function_entries);
    let ghost fg = function_groups(disasm.instructions@, disasm.function_entries@);
    let ghost k = disasm.instructions@.dom();
    proof {
        broadcast use vstd::seq::Seq::lemma_filter_contains_rev;
        assert(func_groups@.dom() =~= fg.dom());
        assert(group_views(func_groups@) =~= fg);
        assert forall|f: u32, j: int|
            #![trigger func_groups@[f]@[j]]
            func_groups@.dom().contains(f) && 0 <= j < func_groups@[f]@.len() implies disasm.instructions@.dom().contains(func_groups@[f]@[j])
                && well_formed(disasm.instructions@[func_groups@[f]@[j]]) by {
            let l = sorted_listing(k);
            let v = func_groups@[f]@;
            assert(v.contains(v[j]));
            assert(l.filter(owned_by(k, disasm.function_entries@, f)).contains(v[j]));
            assert(l.contains(v[j]));
            assert(l.to_set().contains(v[j]));
        }
    }
    let mut game_h = String::new();
    write_game_h(&mut game_h, rom, &func_groups);
    let mut game_c = String::new();
    write_game_c(&mut game_c, &func_groups, disasm);
    let mut dispatcher_c = String::new();
    write_dispatcher_c(&mut dispatcher_c, &func_groups);
    let mut rom_data_c = String::new();
    write_rom_data_c(&mut rom_data_c, rom);
    CProject { game_h, game_c, dispatcher_c, rom_data_c }
}

} // verus!
