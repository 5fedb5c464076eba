//! Properties of single instructions, stated against the LR35902 encoding itself: which
//! jumps are conditional, which condition a mnemonic names and which flag its C code tests,
//! which runtime helper an ALU statement calls, where the hardware is synchronised, and
//! which target the header's mode selects.
use vstd::prelude::*;
use crate::codegen::{alu_fn, cb_c_text, c_reg, c_text, instr_text, read_expr};
use crate::decode::{
    bit_op_name, cb_text, is_undefined_opcode, shift_name, alu_prefix, decodable, flow_of, mnemonic_of, opcode_len, reg_name, DecodedInstruction, FlowControl,
};
use crate::laws::{label_part, lower, statement_line};
use crate::rom::{is_gbc_of, is_title_byte, ram_size_of, rom_size_of, EmulationMode};
use crate::text::{dec, hex_fixed};

verus! {

/// Target of the relative jump at `pc` whose displacement byte is `d`: the address after
/// the two-byte instruction plus `d` read as a signed byte, modulo 2^16.
pub open spec fn relative_dest(pc: u16, d: u8) -> u16 {
    ((pc as int + 2 + (if d < 128 { d as int } else { d as int - 256 })) % 65536) as u16
}

/// The little-endian address in the two bytes after the opcode.
pub open spec fn absolute_dest(data: Seq<u8>) -> u16 {
    (data[1] as int + 256 * data[2] as int) as u16
}

/// The opcodes of the conditional relative jumps JR NZ/Z/NC/C.
pub open spec fn is_cond_jr(op: u8) -> bool {
    op == 0x20 || op == 0x28 || op == 0x30 || op == 0x38
}

/// The opcodes of the conditional absolute jumps JP NZ/Z/NC/C.
pub open spec fn is_cond_jp(op: u8) -> bool {
    op == 0xC2 || op == 0xCA || op == 0xD2 || op == 0xDA
}

/// The opcodes of the conditional calls CALL NZ/Z/NC/C.
pub open spec fn is_cond_call(op: u8) -> bool {
    op == 0xC4 || op == 0xCC || op == 0xD4 || op == 0xDC
}

/// The opcodes of the conditional returns RET NZ/Z/NC/C.
pub open spec fn is_cond_ret(op: u8) -> bool {
    op == 0xC0 || op == 0xC8 || op == 0xD0 || op == 0xD8
}

/// The condition field (bits 3 and 4) of a conditional opcode: 0 NZ, 1 Z, 2 NC, 3 C.
pub open spec fn cond_field(op: u8) -> nat {
    ((op / 8) % 4) as nat
}

/// The flag a condition tests: Z for the first two, C for the last two.
pub open spec fn cond_flag(op: u8) -> Seq<char> {
    if cond_field(op) < 2 {
        "Z"@
    } else {
        "C"@
    }
}

/// The name of a condition: its flag, preceded by N when the condition is that the flag
/// is clear (even condition fields).
pub open spec fn cond_name(op: u8) -> Seq<char> {
    (if cond_field(op) % 2 == 0 {
        "N"@
    } else {
        Seq::empty()
    }) + cond_flag(op)
}

/// The C test of a condition: the flag is tested, and the test is negated for the N forms.
pub open spec fn cond_guard(op: u8) -> Seq<char> {
    if cond_field(op) % 2 == 0 {
        "if (!(cpu->f & FLAG_"@ + cond_flag(op) + ")) {"@
    } else {
        "if (cpu->f & FLAG_"@ + cond_flag(op) + ") {"@
    }
}

/// The jumps JR e (0x18) and JP nn (0xC3) are unconditional and go to the encoded target;
/// JR cc, e and JP cc, nn are conditional (execution may go on after them) and go to the
/// encoded target; no other opcode is a jump or a branch.
pub proof fn lemma_jump_flows(data: Seq<u8>, pc: u16)
    requires
        decodable(data),
    ensures
        data[0] == 0x18 ==> flow_of(data, pc) == FlowControl::Jump(relative_dest(pc, data[1])),
        data[0] == 0xC3 ==> flow_of(data, pc) == FlowControl::Jump(absolute_dest(data)),
        is_cond_jr(data[0]) ==> flow_of(data, pc) == FlowControl::Branch(relative_dest(pc, data[1])),
        is_cond_jp(data[0]) ==> flow_of(data, pc) == FlowControl::Branch(absolute_dest(data)),
        flow_of(data, pc) is Jump ==> data[0] == 0x18 || data[0] == 0xC3,
        flow_of(data, pc) is Branch ==> is_cond_jr(data[0]) || is_cond_jp(data[0]),
{
}

/// Every conditional jump, call and return names its condition in its mnemonic, and its C
/// statement begins with the test of that condition: the mnemonic says `NZ`, `Z`, `NC` or
/// `C` exactly as the condition field of the opcode selects, and the C code tests the
/// named flag, negated for the `N` forms.
#[verifier::spinoff_prover]
#[verifier::rlimit(60)]
pub proof fn lemma_conditions_named_and_tested(data: Seq<u8>, pc: u16, bank: u16, instrs: Seq<u32>)
    requires
        decodable(data),
        is_cond_jr(data[0]) || is_cond_jp(data[0]) || is_cond_call(data[0]) || is_cond_ret(data[0]),
    ensures
        ({
            let op = data[0];
            let m = mnemonic_of(data, pc);
            let s = c_text(data.take(opcode_len(op) as int), pc, bank, instrs);
            &&& is_cond_jr(op) ==> m == "JR "@ + cond_name(op) + ", 0x"@ + hex_fixed(
                relative_dest(pc, data[1]) as nat,
                4,
            )
            &&& is_cond_jp(op) ==> m == "JP "@ + cond_name(op) + ", 0x"@ + hex_fixed(
                absolute_dest(data) as nat,
                4,
            )
            &&& is_cond_call(op) ==> m == "CALL "@ + cond_name(op) + ", 0x"@ + hex_fixed(
                absolute_dest(data) as nat,
                4,
            )
            &&& is_cond_ret(op) ==> m == "RET "@ + cond_name(op)
            &&& s.len() >= cond_guard(op).len()
            &&& s.take(cond_guard(op).len() as int) == cond_guard(op)
        }),
{
    let op = data[0];
    let bytes = data.take(opcode_len(op) as int);
    assert(bytes[0] == op);
    if opcode_len(op) >= 2 {
        assert(bytes[1] == data[1]);
    }
    if opcode_len(op) == 3 {
        assert(bytes[2] == data[2]);
    }
    let m = mnemonic_of(data, pc);
    let s = c_text(bytes, pc, bank, instrs);
    let g = cond_guard(op);
    reveal_strlit("");
    reveal_strlit("N");
    reveal_strlit("Z");
    reveal_strlit("C");
    reveal_strlit("JR ");
    reveal_strlit("JP ");
    reveal_strlit("CALL ");
    reveal_strlit("RET ");
    reveal_strlit(", 0x");
    reveal_strlit("if (!(cpu->f & FLAG_");
    reveal_strlit("if (cpu->f & FLAG_");
    reveal_strlit(")) {");
    reveal_strlit(") {");
    if op == 0x20 {
        reveal_strlit("JR NZ, 0x");
        reveal_strlit("if (!(cpu->f & FLAG_Z)) { cpu->cycles += 12; ");
    } else if op == 0x28 {
        reveal_strlit("JR Z, 0x");
        reveal_strlit("if (cpu->f & FLAG_Z) { cpu->cycles += 12; ");
    } else if op == 0x30 {
        reveal_strlit("JR NC, 0x");
        reveal_strlit("if (!(cpu->f & FLAG_C)) { cpu->cycles += 12; ");
    } else if op == 0x38 {
        reveal_strlit("JR C, 0x");
        reveal_strlit("if (cpu->f & FLAG_C) { cpu->cycles += 12; ");
    } else if op == 0xC2 {
        reveal_strlit("JP NZ, 0x");
        reveal_strlit("if (!(cpu->f & FLAG_Z)) { cpu->cycles += 12; ");
    } else if op == 0xCA {
        reveal_strlit("JP Z, 0x");
        reveal_strlit("if (cpu->f & FLAG_Z) { cpu->cycles += 12; ");
    } else if op == 0xD2 {
        reveal_strlit("JP NC, 0x");
        reveal_strlit("if (!(cpu->f & FLAG_C)) { cpu->cycles += 12; ");
    } else if op == 0xDA {
        reveal_strlit("JP C, 0x");
        reveal_strlit("if (cpu->f & FLAG_C) { cpu->cycles += 12; ");
    } else if op == 0xC4 {
        reveal_strlit("CALL NZ, 0x");
        reveal_strlit("if (!(cpu->f & FLAG_Z)) { cpu->cycles += 24; cpu_call(cpu, 0x");
    } else if op == 0xCC {
        reveal_strlit("CALL Z, 0x");
        reveal_strlit("if (cpu->f & FLAG_Z) { cpu->cycles += 24; cpu_call(cpu, 0x");
    } else if op == 0xD4 {
        reveal_strlit("CALL NC, 0x");
        reveal_strlit("if (!(cpu->f & FLAG_C)) { cpu->cycles += 24; cpu_call(cpu, 0x");
    } else if op == 0xDC {
        reveal_strlit("CALL C, 0x");
        reveal_strlit("if (cpu->f & FLAG_C) { cpu->cycles += 24; cpu_call(cpu, 0x");
    } else if op == 0xC0 {
        reveal_strlit("RET NZ");
        reveal_strlit("if (!(cpu->f & FLAG_Z)) { cpu->cycles += 20; cpu_ret(cpu); return; } else { cpu->cycles += 8; }");
    } else if op == 0xC8 {
        reveal_strlit("RET Z");
        reveal_strlit("if (cpu->f & FLAG_Z) { cpu->cycles += 20; cpu_ret(cpu); return; } else { cpu->cycles += 8; }");
    } else if op == 0xD0 {
        reveal_strlit("RET NC");
        reveal_strlit("if (!(cpu->f & FLAG_C)) { cpu->cycles += 20; cpu_ret(cpu); return; } else { cpu->cycles += 8; }");
    } else {
        reveal_strlit("RET C");
        reveal_strlit("if (cpu->f & FLAG_C) { cpu->cycles += 20; cpu_ret(cpu); return; } else { cpu->cycles += 8; }");
    }
    assert(s.take(g.len() as int) =~= g);
    if is_cond_jr(op) {
        assert(m =~= "JR "@ + cond_name(op) + ", 0x"@ + hex_fixed(relative_dest(pc, data[1]) as nat, 4));
    } else if is_cond_jp(op) {
        assert(m =~= "JP "@ + cond_name(op) + ", 0x"@ + hex_fixed(absolute_dest(data) as nat, 4));
    } else if is_cond_call(op) {
        assert(m =~= "CALL "@ + cond_name(op) + ", 0x"@ + hex_fixed(absolute_dest(data) as nat, 4));
    } else {
        assert(m =~= "RET "@ + cond_name(op));
    }
}

/// `s` up to its first space.
pub open spec fn first_word(s: Seq<char>) -> Seq<char>
    decreases s.len(),
{
    if s.len() == 0 || s[0] == ' ' {
        Seq::empty()
    } else {
        seq![s[0]] + first_word(s.skip(1))
    }
}

/// The C statement of an 8-bit ALU instruction (0x80..=0xBF) calls the runtime helper
/// named after the operation in its mnemonic: `cpu_` followed by the mnemonic's first word
/// in lower case and `_a` (ADD becomes `cpu_add_a`, AND `cpu_and_a`, OR `cpu_or_a`), on the
/// operand of the opcode's low three bits, taking 8 cycles from memory and 4 from a
/// register.
#[verifier::spinoff_prover]
#[verifier::rlimit(60)]
pub proof fn lemma_alu_helper_named(data: Seq<u8>, pc: u16, bank: u16, instrs: Seq<u32>)
    requires
        data.len() >= 1,
        0x80 <= data[0] < 0xC0,
    ensures
        c_text(data.take(1), pc, bank, instrs) == "cpu_"@ + lower(first_word(mnemonic_of(data, pc))) + "_a(cpu, "@
            + read_expr((data[0] % 8) as nat) + "); cpu->cycles += "@ + (if data[0] % 8 == 6 {
            "8"@
        } else {
            "4"@
        }) + ";"@,
{
    let op = data[0];
    let bytes = data.take(1);
    assert(bytes[0] == op);
    let m = mnemonic_of(data, pc);
    let k = ((op - 0x80) / 8) as nat;
    reveal_strlit("cpu_");
    reveal_strlit("_a(cpu, ");
    reveal_strlit("_a");
    reveal_with_fuel(first_word, 5);
    let w = first_word(m);
    if k == 0 {
        reveal_strlit("ADD A, ");
        reveal_strlit("cpu_add_a");
        assert(m.skip(1).skip(1).skip(1)[0] == ' ');
        reveal_strlit("ADD");
        assert(w =~= "ADD"@);
        assert(alu_fn(k) =~= "cpu_"@ + lower(w) + "_a"@);
    } else if k == 1 {
        reveal_strlit("ADC A, ");
        reveal_strlit("cpu_adc_a");
        assert(m.skip(1).skip(1).skip(1)[0] == ' ');
        reveal_strlit("ADC");
        assert(w =~= "ADC"@);
        assert(alu_fn(k) =~= "cpu_"@ + lower(w) + "_a"@);
    } else if k == 2 {
        reveal_strlit("SUB ");
        reveal_strlit("cpu_sub_a");
        assert(m.skip(1).skip(1).skip(1)[0] == ' ');
        reveal_strlit("SUB");
        assert(w =~= "SUB"@);
        assert(alu_fn(k) =~= "cpu_"@ + lower(w) + "_a"@);
    } else if k == 3 {
        reveal_strlit("SBC A, ");
        reveal_strlit("cpu_sbc_a");
        assert(m.skip(1).skip(1).skip(1)[0] == ' ');
        reveal_strlit("SBC");
        assert(w =~= "SBC"@);
        assert(alu_fn(k) =~= "cpu_"@ + lower(w) + "_a"@);
    } else if k == 4 {
        reveal_strlit("AND ");
        reveal_strlit("cpu_and_a");
        assert(m.skip(1).skip(1).skip(1)[0] == ' ');
        reveal_strlit("AND");
        assert(w =~= "AND"@);
        assert(alu_fn(k) =~= "cpu_"@ + lower(w) + "_a"@);
    } else if k == 5 {
        reveal_strlit("XOR ");
        reveal_strlit("cpu_xor_a");
        assert(m.skip(1).skip(1).skip(1)[0] == ' ');
        reveal_strlit("XOR");
        assert(w =~= "XOR"@);
        assert(alu_fn(k) =~= "cpu_"@ + lower(w) + "_a"@);
    } else if k == 6 {
        reveal_strlit("OR ");
        reveal_strlit("cpu_or_a");
        assert(m.skip(1).skip(1)[0] == ' ');
        reveal_strlit("OR");
        assert(w =~= "OR"@);
        assert(alu_fn(k) =~= "cpu_"@ + lower(w) + "_a"@);
    } else {
        reveal_strlit("CP ");
        reveal_strlit("cpu_cp_a");
        assert(m.skip(1).skip(1)[0] == ' ');
        reveal_strlit("CP");
        assert(w =~= "CP"@);
        assert(alu_fn(k) =~= "cpu_"@ + lower(w) + "_a"@);
    }
    reveal_strlit("_a");
    reveal_strlit("(cpu, ");
    assert("cpu_"@ + lower(w) + "_a(cpu, "@ =~= alu_fn(k) + "(cpu, "@);
    assert(c_text(bytes, pc, bank, instrs) =~= "cpu_"@ + lower(w) + "_a(cpu, "@ + read_expr((op % 8) as nat)
        + "); cpu->cycles += "@ + (if op % 8 == 6 {
        "8"@
    } else {
        "4"@
    }) + ";"@);
}

/// The lines that synchronise the hardware before the instruction at `pc`.
pub open spec fn sync_lines(pc: u16) -> Seq<char> {
    "    cpu->pc = 0x"@ + hex_fixed(pc as nat, 4) + ";\n    sync_hardware(cpu);\n    if (cpu->pc != 0x"@
        + hex_fixed(pc as nat, 4) + ") return;\n"@
}

/// In game.c, the hardware is synchronised before exactly the instructions that change
/// control flow or write memory through LD (nn), A (0xEA), LDH (n), A (0xE0) or
/// LD (C), A (0xE2): their lines are the optional label, the synchronisation and the
/// statement; every other instruction's lines are the optional label and the statement.
pub proof fn lemma_sync_placement(
    inst: DecodedInstruction,
    a: u32,
    targets: Set<u32>,
    bank: u16,
    group: Seq<u32>,
    expected: u16,
)
    requires
        inst.bytes@.len() >= 1,
    ensures
        ({
            let op = inst.bytes@[0];
            let synced = op == 0xEA || op == 0xE0 || op == 0xE2 || inst.flow != FlowControl::Normal;
            let lab = label_part(inst, a, targets, bank, expected);
            &&& synced ==> instr_text(inst, a, targets, bank, group, expected) == lab + sync_lines(inst.pc)
                + statement_line(inst, bank, group)
            &&& !synced ==> instr_text(inst, a, targets, bank, group, expected) == lab + statement_line(
                inst,
                bank,
                group,
            )
        }),
{
    let op = inst.bytes@[0];
    let lab = label_part(inst, a, targets, bank, expected);
    if op == 0xEA || op == 0xE0 || op == 0xE2 || inst.flow != FlowControl::Normal {
        assert(instr_text(inst, a, targets, bank, group, expected) =~= lab + sync_lines(inst.pc) + statement_line(
            inst,
            bank,
            group,
        ));
    } else {
        assert(instr_text(inst, a, targets, bank, group, expected) =~= lab + statement_line(inst, bank, group));
    }
}

/// The target the header selects: forced DMG is never the Color, forced CGB always is, and
/// auto-detection picks the Color exactly for the CGB flags 0x80 (compatible) and 0xC0
/// (Color only).
pub proof fn lemma_mode_selects_target(cgb_flag: u8)
    ensures
        !is_gbc_of(EmulationMode::Dmg, cgb_flag),
        is_gbc_of(EmulationMode::Cgb, cgb_flag),
        is_gbc_of(EmulationMode::Auto, cgb_flag) <==> (cgb_flag == 0x80 || cgb_flag == 0xC0),
{
}

/// The names of the eight register fields of the LR35902 encoding, in field order.
pub open spec fn reg_field_name(r: nat) -> Seq<char> {
    if r == 0 {
        seq!['B']
    } else if r == 1 {
        seq!['C']
    } else if r == 2 {
        seq!['D']
    } else if r == 3 {
        seq!['E']
    } else if r == 4 {
        seq!['H']
    } else if r == 5 {
        seq!['L']
    } else if r == 6 {
        seq!['(', 'H', 'L', ')']
    } else {
        seq!['A']
    }
}

/// The C expression for register field `r`: the CPU field named after the register in
/// lower case, or the byte at HL.
pub open spec fn reg_field_c(r: nat) -> Seq<char> {
    if r == 6 {
        "read8(cpu, cpu->hl)"@
    } else {
        "cpu->"@ + lower(reg_field_name(r))
    }
}

/// The mnemonic and C names of every register field agree with the encoding.
pub proof fn lemma_register_fields(r: nat)
    requires
        r < 8,
    ensures
        reg_name(r) == reg_field_name(r),
        read_expr(r) == reg_field_c(r),
        r != 6 ==> c_reg(r) == lower(reg_field_name(r)),
{
    reveal_strlit("cpu->");
    reveal_strlit("read8(cpu, cpu->hl)");
    if r == 0 {
        reveal_strlit("B");
        reveal_strlit("b");
    } else if r == 1 {
        reveal_strlit("C");
        reveal_strlit("c");
    } else if r == 2 {
        reveal_strlit("D");
        reveal_strlit("d");
    } else if r == 3 {
        reveal_strlit("E");
        reveal_strlit("e");
    } else if r == 4 {
        reveal_strlit("H");
        reveal_strlit("h");
    } else if r == 5 {
        reveal_strlit("L");
        reveal_strlit("l");
    } else if r == 6 {
        reveal_strlit("(HL)");
        reveal_strlit("hl");
    } else {
        reveal_strlit("A");
        reveal_strlit("a");
    }
    assert(reg_name(r) =~= reg_field_name(r));
    if r != 6 {
        assert(c_reg(r) =~= lower(reg_field_name(r)));
    }
    assert(read_expr(r) =~= reg_field_c(r));
}

/// LD r, r' (0x40..=0x7F but HALT) names its destination (bits 3..5) and source (bits
/// 0..2) registers, and its C code copies the source into the destination (through
/// memory at HL for `(HL)`), taking 8 cycles with memory and 4 otherwise.
pub proof fn lemma_register_loads(data: Seq<u8>, pc: u16, bank: u16, instrs: Seq<u32>)
    requires
        data.len() >= 1,
        0x40 <= data[0] < 0x80,
        data[0] != 0x76,
    ensures
        ({
            let d = ((data[0] - 0x40) / 8) as nat;
            let r = (data[0] % 8) as nat;
            &&& mnemonic_of(data, pc) == "LD "@ + reg_field_name(d) + ", "@ + reg_field_name(r)
            &&& c_text(data.take(1), pc, bank, instrs) == (if d == 6 {
                "write8(cpu, cpu->hl, cpu->"@ + lower(reg_field_name(r)) + "); cpu->cycles += 8;"@
            } else if r == 6 {
                "cpu->"@ + lower(reg_field_name(d)) + " = read8(cpu, cpu->hl); cpu->cycles += 8;"@
            } else {
                "cpu->"@ + lower(reg_field_name(d)) + " = cpu->"@ + lower(reg_field_name(r)) + "; cpu->cycles += 4;"@
            })
        }),
{
    let op = data[0];
    assert(data.take(1)[0] == op);
    let d = ((op - 0x40) / 8) as nat;
    let r = (op % 8) as nat;
    lemma_register_fields(d);
    lemma_register_fields(r);
}

/// The mnemonic text of each ALU operation (bits 3..5 of 0x80..=0xBF), before the operand.
pub open spec fn alu_words(k: nat) -> Seq<char> {
    if k == 0 {
        "ADD A, "@
    } else if k == 1 {
        "ADC A, "@
    } else if k == 2 {
        "SUB "@
    } else if k == 3 {
        "SBC A, "@
    } else if k == 4 {
        "AND "@
    } else if k == 5 {
        "XOR "@
    } else if k == 6 {
        "OR "@
    } else {
        "CP "@
    }
}

/// An ALU instruction (0x80..=0xBF) names the operation of bits 3..5 in the encoding's
/// order ADD, ADC, SUB, SBC, AND, XOR, OR, CP and the operand register of bits 0..2, and its
/// C code applies that operation's helper to that operand.
#[verifier::spinoff_prover]
#[verifier::rlimit(40)]
pub proof fn lemma_alu_operations(data: Seq<u8>, pc: u16, bank: u16, instrs: Seq<u32>)
    requires
        data.len() >= 1,
        0x80 <= data[0] < 0xC0,
    ensures
        mnemonic_of(data, pc) == alu_words(((data[0] - 0x80) / 8) as nat) + reg_field_name((data[0] % 8) as nat),
        c_text(data.take(1), pc, bank, instrs) == "cpu_"@ + lower(first_word(mnemonic_of(data, pc))) + "_a(cpu, "@
            + reg_field_c((data[0] % 8) as nat) + "); cpu->cycles += "@ + (if data[0] % 8 == 6 {
            "8"@
        } else {
            "4"@
        }) + ";"@,
{
    let op = data[0];
    let k = ((op - 0x80) / 8) as nat;
    lemma_register_fields((op % 8) as nat);
    lemma_alu_helper_named(data, pc, bank, instrs);
    if k == 0 {
        reveal_strlit("ADD A, ");
    } else if k == 1 {
        reveal_strlit("ADC A, ");
    } else if k == 2 {
        reveal_strlit("SUB ");
    } else if k == 3 {
        reveal_strlit("SBC A, ");
    } else if k == 4 {
        reveal_strlit("AND ");
    } else if k == 5 {
        reveal_strlit("XOR ");
    } else if k == 6 {
        reveal_strlit("OR ");
    } else {
        reveal_strlit("CP ");
    }
    assert(alu_prefix(k) =~= alu_words(k));
}

/// INC r (bits 0..2 = 4), DEC r (5) and LD r, n (6) below 0x40 name the register of bits
/// 3..5, and their C code increments, decrements or loads that register (through memory at
/// HL for `(HL)`) with the encoded byte.
#[verifier::spinoff_prover]
#[verifier::rlimit(60)]
pub proof fn lemma_register_updates(data: Seq<u8>, pc: u16, bank: u16, instrs: Seq<u32>)
    requires
        decodable(data),
        data[0] < 0x40,
        data[0] % 8 == 4 || data[0] % 8 == 5 || data[0] % 8 == 6,
    ensures
        ({
            let op = data[0];
            let r = (op / 8) as nat;
            let x = lower(reg_field_name(r));
            let m = mnemonic_of(data, pc);
            let s = c_text(data.take(opcode_len(op) as int), pc, bank, instrs);
            &&& op % 8 == 4 ==> m == "INC "@ + reg_field_name(r) && s == (if r == 6 {
                "write8(cpu, cpu->hl, cpu_inc8(cpu, read8(cpu, cpu->hl))); cpu->cycles += 12;"@
            } else {
                "cpu->"@ + x + " = cpu_inc8(cpu, cpu->"@ + x + "); cpu->cycles += 4;"@
            })
            &&& op % 8 == 5 ==> m == "DEC "@ + reg_field_name(r) && s == (if r == 6 {
                "write8(cpu, cpu->hl, cpu_dec8(cpu, read8(cpu, cpu->hl))); cpu->cycles += 12;"@
            } else {
                "cpu->"@ + x + " = cpu_dec8(cpu, cpu->"@ + x + "); cpu->cycles += 4;"@
            })
            &&& op % 8 == 6 ==> m == "LD "@ + reg_field_name(r) + ", 0x"@ + hex_fixed(data[1] as nat, 2) && s == (
            if r == 6 {
                "write8(cpu, cpu->hl, 0x"@ + hex_fixed(data[1] as nat, 2) + "); cpu->cycles += 12;"@
            } else {
                "cpu->"@ + x + " = 0x"@ + hex_fixed(data[1] as nat, 2) + "; cpu->cycles += 8;"@
            })
        }),
{
    let op = data[0];
    let r = (op / 8) as nat;
    let bytes = data.take(opcode_len(op) as int);
    assert(bytes[0] == op);
    if op % 8 == 6 {
        assert(bytes[1] == data[1]);
    }
    lemma_register_fields(r);
    reveal_strlit("");
    reveal_strlit("INC ");
    reveal_strlit("DEC ");
    reveal_strlit("LD ");
    reveal_strlit(", 0x");
    reveal_strlit("cpu->");
    reveal_strlit(" = cpu_inc8(cpu, cpu->");
    reveal_strlit(" = cpu_dec8(cpu, cpu->");
    reveal_strlit("); cpu->cycles += 4;");
    reveal_strlit(" = 0x");
    reveal_strlit("; cpu->cycles += 8;");
    reveal_strlit("write8(cpu, cpu->hl, 0x");
    reveal_strlit("); cpu->cycles += 12;");
    reveal_strlit("write8(cpu, cpu->hl, cpu_inc8(cpu, read8(cpu, cpu->hl))); cpu->cycles += 12;");
    reveal_strlit("write8(cpu, cpu->hl, cpu_dec8(cpu, read8(cpu, cpu->hl))); cpu->cycles += 12;");
        if op == 0x04 {
            reveal_strlit("INC B");
            reveal_strlit("cpu->b = cpu_inc8(cpu, cpu->b); cpu->cycles += 4;");
        } else if op == 0x05 {
            reveal_strlit("DEC B");
            reveal_strlit("cpu->b = cpu_dec8(cpu, cpu->b); cpu->cycles += 4;");
        } else if op == 0x06 {
            reveal_strlit("LD B, 0x");
            reveal_strlit("cpu->b = 0x");
            reveal_strlit("; cpu->cycles += 8;");
        } else if op == 0x0C {
            reveal_strlit("INC C");
            reveal_strlit("cpu->c = cpu_inc8(cpu, cpu->c); cpu->cycles += 4;");
        } else if op == 0x0D {
            reveal_strlit("DEC C");
            reveal_strlit("cpu->c = cpu_dec8(cpu, cpu->c); cpu->cycles += 4;");
        } else if op == 0x0E {
            reveal_strlit("LD C, 0x");
            reveal_strlit("cpu->c = 0x");
            reveal_strlit("; cpu->cycles += 8;");
        } else if op == 0x14 {
            reveal_strlit("INC D");
            reveal_strlit("cpu->d = cpu_inc8(cpu, cpu->d); cpu->cycles += 4;");
        } else if op == 0x15 {
            reveal_strlit("DEC D");
            reveal_strlit("cpu->d = cpu_dec8(cpu, cpu->d); cpu->cycles += 4;");
        } else if op == 0x16 {
            reveal_strlit("LD D, 0x");
            reveal_strlit("cpu->d = 0x");
            reveal_strlit("; cpu->cycles += 8;");
        } else if op == 0x1C {
            reveal_strlit("INC E");
            reveal_strlit("cpu->e = cpu_inc8(cpu, cpu->e); cpu->cycles += 4;");
        } else if op == 0x1D {
            reveal_strlit("DEC E");
            reveal_strlit("cpu->e = cpu_dec8(cpu, cpu->e); cpu->cycles += 4;");
        } else if op == 0x1E {
            reveal_strlit("LD E, 0x");
            reveal_strlit("cpu->e = 0x");
            reveal_strlit("; cpu->cycles += 8;");
        } else if op == 0x24 {
            reveal_strlit("INC H");
            reveal_strlit("cpu->h = cpu_inc8(cpu, cpu->h); cpu->cycles += 4;");
        } else if op == 0x25 {
            reveal_strlit("DEC H");
            reveal_strlit("cpu->h = cpu_dec8(cpu, cpu->h); cpu->cycles += 4;");
        } else if op == 0x26 {
            reveal_strlit("LD H, 0x");
            reveal_strlit("cpu->h = 0x");
            reveal_strlit("; cpu->cycles += 8;");
        } else if op == 0x2C {
            reveal_strlit("INC L");
            reveal_strlit("cpu->l = cpu_inc8(cpu, cpu->l); cpu->cycles += 4;");
        } else if op == 0x2D {
            reveal_strlit("DEC L");
            reveal_strlit("cpu->l = cpu_dec8(cpu, cpu->l); cpu->cycles += 4;");
        } else if op == 0x2E {
            reveal_strlit("LD L, 0x");
            reveal_strlit("cpu->l = 0x");
            reveal_strlit("; cpu->cycles += 8;");
        } else if op == 0x34 {
            reveal_strlit("INC (HL)");
            reveal_strlit("write8(cpu, cpu->hl, cpu_inc8(cpu, read8(cpu, cpu->hl))); cpu->cycles += 12;");
        } else if op == 0x35 {
            reveal_strlit("DEC (HL)");
            reveal_strlit("write8(cpu, cpu->hl, cpu_dec8(cpu, read8(cpu, cpu->hl))); cpu->cycles += 12;");
        } else if op == 0x36 {
            reveal_strlit("LD (HL), 0x");
            reveal_strlit("write8(cpu, cpu->hl, 0x");
            reveal_strlit("); cpu->cycles += 12;");
        } else if op == 0x3C {
            reveal_strlit("INC A");
            reveal_strlit("cpu->a = cpu_inc8(cpu, cpu->a); cpu->cycles += 4;");
        } else if op == 0x3D {
            reveal_strlit("DEC A");
            reveal_strlit("cpu->a = cpu_dec8(cpu, cpu->a); cpu->cycles += 4;");
        } else if op == 0x3E {
            reveal_strlit("LD A, 0x");
            reveal_strlit("cpu->a = 0x");
            reveal_strlit("; cpu->cycles += 8;");
        }
    let x = lower(reg_field_name(r));
    let m = mnemonic_of(data, pc);
    let s2 = c_text(bytes, pc, bank, instrs);
    if op % 8 == 4 {
        assert(m =~= "INC "@ + reg_field_name(r));
        if r != 6 {
            assert(s2 =~= "cpu->"@ + x + " = cpu_inc8(cpu, cpu->"@ + x + "); cpu->cycles += 4;"@);
        }
    } else if op % 8 == 5 {
        assert(m =~= "DEC "@ + reg_field_name(r));
        if r != 6 {
            assert(s2 =~= "cpu->"@ + x + " = cpu_dec8(cpu, cpu->"@ + x + "); cpu->cycles += 4;"@);
        }
    } else {
        assert(m =~= "LD "@ + reg_field_name(r) + ", 0x"@ + hex_fixed(data[1] as nat, 2));
        if r != 6 {
            assert(s2 =~= "cpu->"@ + x + " = 0x"@ + hex_fixed(data[1] as nat, 2) + "; cpu->cycles += 8;"@);
        } else {
            assert(s2 =~= "write8(cpu, cpu->hl, 0x"@ + hex_fixed(data[1] as nat, 2) + "); cpu->cycles += 12;"@);
        }
    }
}

/// The CB-prefixed rotate and shift names, by bits 3..5 of the second byte below 0x40.
pub open spec fn shift_op_name(k: nat) -> Seq<char> {
    if k == 0 {
        seq!['R', 'L', 'C']
    } else if k == 1 {
        seq!['R', 'R', 'C']
    } else if k == 2 {
        seq!['R', 'L']
    } else if k == 3 {
        seq!['R', 'R']
    } else if k == 4 {
        seq!['S', 'L', 'A']
    } else if k == 5 {
        seq!['S', 'R', 'A']
    } else if k == 6 {
        seq!['S', 'W', 'A', 'P']
    } else {
        seq!['S', 'R', 'L']
    }
}

/// The CB-prefixed bit operations, by the top two bits of the second byte.
pub open spec fn bit_op_word(g: nat) -> Seq<char> {
    if g == 1 {
        seq!['B', 'I', 'T']
    } else if g == 2 {
        seq!['R', 'E', 'S']
    } else {
        seq!['S', 'E', 'T']
    }
}

/// The mnemonic of a CB-prefixed instruction follows its second byte: below 0x40 the
/// rotate or shift of bits 3..5 on the register of bits 0..2; from 0x40 on BIT, RES or SET
/// (top two bits) of the bit numbered by bits 3..5 on the register of bits 0..2.
pub proof fn lemma_cb_mnemonics(op: u8)
    ensures
        op < 0x40 ==> cb_text(op) == shift_op_name((op / 8) as nat) + seq![' '] + reg_field_name((op % 8) as nat),
        op >= 0x40 ==> cb_text(op) == bit_op_word((op / 64) as nat) + seq![' '] + dec(((op / 8) % 8) as nat)
            + seq![',', ' '] + reg_field_name((op % 8) as nat),
{
    lemma_register_fields((op % 8) as nat);
    reveal_strlit(" ");
    reveal_strlit(", ");
    let k = ((op / 8) % 8) as nat;
    if op < 0x40 {
        if k == 0 {
            reveal_strlit("RLC");
        } else if k == 1 {
            reveal_strlit("RRC");
        } else if k == 2 {
            reveal_strlit("RL");
        } else if k == 3 {
            reveal_strlit("RR");
        } else if k == 4 {
            reveal_strlit("SLA");
        } else if k == 5 {
            reveal_strlit("SRA");
        } else if k == 6 {
            reveal_strlit("SWAP");
        } else {
            reveal_strlit("SRL");
        }
        assert(shift_name((op / 8) as nat) =~= shift_op_name((op / 8) as nat));
        assert(cb_text(op) =~= shift_op_name((op / 8) as nat) + seq![' '] + reg_field_name((op % 8) as nat));
    } else {
        reveal_strlit("BIT");
        reveal_strlit("RES");
        reveal_strlit("SET");
        assert(bit_op_name((op / 64) as nat) =~= bit_op_word((op / 64) as nat));
        assert(cb_text(op) =~= bit_op_word((op / 64) as nat) + seq![' '] + dec(((op / 8) % 8) as nat) + seq![',', ' ']
            + reg_field_name((op % 8) as nat));
    }
}

/// The length of an instruction from its opcode: the prefix byte and STOP take two bytes;
/// below 0x40, LD rr, nn and LD (nn), SP take three, LD r, n and the relative jumps two;
/// the register loads and ALU operations 0x40..=0xBF one; from 0xC0 on, ALU operations with
/// an immediate and the 0xFFxx loads and SP offsets take two, absolute jumps, calls and
/// loads three, and the rest one.
pub open spec fn encoded_len(op: u8) -> nat {
    if op == 0xCB || op == 0x10 {
        2
    } else if op < 0x40 {
        if op % 16 == 1 || op == 0x08 {
            3
        } else if op % 8 == 6 || op == 0x18 || (op >= 0x20 && op % 8 == 0) {
            2
        } else {
            1
        }
    } else if op < 0xC0 {
        1
    } else if op % 8 == 6 || op == 0xE0 || op == 0xF0 || op == 0xE8 || op == 0xF8 {
        2
    } else if is_cond_jp(op) || is_cond_call(op) || op == 0xC3 || op == 0xCD || op == 0xEA || op == 0xFA {
        3
    } else {
        1
    }
}

/// Every defined opcode's instruction length is the one its encoding gives.
pub proof fn lemma_instruction_lengths(op: u8)
    requires
        !is_undefined_opcode(op),
    ensures
        opcode_len(op) == encoded_len(op),
{
}

/// The control flow of a decoded instruction from its encoding: STOP and HALT halt; JR e
/// and JP nn jump; the conditional JR and JP branch; CALL nn and the conditional calls call
/// the encoded address, and RST n calls n * 8; RET and RETI return; JP (HL) jumps
/// indirectly; everything else (the conditional returns too) goes on to the next
/// instruction.
pub proof fn lemma_flow_table(data: Seq<u8>, pc: u16)
    requires
        decodable(data),
    ensures
        flow_of(data, pc) == (if data[0] == 0x10 || data[0] == 0x76 {
            FlowControl::Halt
        } else if data[0] == 0x18 {
            FlowControl::Jump(relative_dest(pc, data[1]))
        } else if data[0] == 0xC3 {
            FlowControl::Jump(absolute_dest(data))
        } else if is_cond_jr(data[0]) {
            FlowControl::Branch(relative_dest(pc, data[1]))
        } else if is_cond_jp(data[0]) {
            FlowControl::Branch(absolute_dest(data))
        } else if is_cond_call(data[0]) || data[0] == 0xCD {
            FlowControl::Call(absolute_dest(data))
        } else if data[0] >= 0xC0 && data[0] % 8 == 7 {
            FlowControl::Call((((data[0] / 8) % 8) * 8) as u16)
        } else if data[0] == 0xC9 || data[0] == 0xD9 {
            FlowControl::Return
        } else if data[0] == 0xE9 {
            FlowControl::JumpIndirect
        } else {
            FlowControl::Normal
        }),
{
}

/// The C code of BIT, RES and SET (second byte from 0x40 on) tests, clears or sets the bit
/// numbered by bits 3..5 of the register of bits 0..2 (through memory at HL for `(HL)`,
/// which costs more cycles).
pub proof fn lemma_cb_bit_operations(op: u8)
    requires
        op >= 0x40,
    ensures
        ({
            let r = (op % 8) as nat;
            let bit = dec(((op / 8) % 8) as nat);
            let x = reg_field_c(r);
            let store = |v: Seq<char>| if r == 6 {
                "write8(cpu, cpu->hl, "@ + v + "); cpu->cycles += 16;"@
            } else {
                "cpu->"@ + lower(reg_field_name(r)) + " = "@ + v + "; cpu->cycles += 8;"@
            };
            &&& op < 0x80 ==> cb_c_text(op) == "cpu_bit(cpu, "@ + bit + ", "@ + x + "); cpu->cycles += "@ + (if r
                == 6 {
                "12"@
            } else {
                "8"@
            }) + ";"@
            &&& 0x80 <= op < 0xC0 ==> cb_c_text(op) == store("("@ + x + " & ~(1 << "@ + bit + "))"@)
            &&& 0xC0 <= op ==> cb_c_text(op) == store("("@ + x + " | (1 << "@ + bit + "))"@)
        }),
{
    lemma_register_fields((op % 8) as nat);
}

/// The ROM size code 0x00 stands for 32 KiB, each next code up to 0x08 doubles it, and
/// every code above 0x08 is unknown.
pub proof fn lemma_rom_sizes(code: u8)
    ensures
        rom_size_of(0) == Some(32768nat),
        1 <= code <= 8 ==> rom_size_of(code) == Some(2 * rom_size_of((code - 1) as u8)->0),
        code > 8 ==> rom_size_of(code) is None,
{
}

/// The RAM size codes: none (0x00), 2 KiB (0x01), and 1, 4, 16 and 8 banks of 8 KiB
/// (0x02 to 0x05); every code above 0x05 is unknown.
pub proof fn lemma_ram_sizes(code: u8)
    ensures
        code == 0 ==> ram_size_of(code) == Some(0nat),
        code == 1 ==> ram_size_of(code) == Some(2048nat),
        code == 2 ==> ram_size_of(code) == Some(8192nat),
        code == 3 ==> ram_size_of(code) == Some(4 * 8192nat),
        code == 4 ==> ram_size_of(code) == Some(16 * 8192nat),
        code == 5 ==> ram_size_of(code) == Some(8 * 8192nat),
        code > 5 ==> ram_size_of(code) is None,
{
}

/// The title keeps the space and the printable ASCII characters (0x21..=0x7E) and drops
/// every other byte.
pub proof fn lemma_title_bytes(b: u8)
    ensures
        is_title_byte(b) <==> (b == 0x20 || (0x21 <= b && b <= 0x7E)),
{
}

} // verus!
