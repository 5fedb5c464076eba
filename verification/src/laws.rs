//! Properties that relate several parts of the library.
use vstd::prelude::*;
use crate::analysis::{
    bank_count, explored_fn, fanout_holds, member_fn, successors_explored, successors_hold,
    abs_addr_spec, faithful, matches_rom, owned_by, owner, rom_offset, sorted_listing,
    strictly_increasing,
};
use crate::text::{dec, hex_digit, hex_fixed, hex_len, hex_min};
use crate::codegen::{
    rom_data_c_text, byte_entries, byte_entry, end_of, function_text, function_texts, game_c_text, instr_lines, instr_text, needs_sync, case_lines, dispatcher_c_text, func_name, c_form, c_reg, c_text, cb_c_text, read_expr, shift_fn, write_expr, func_bank, func_pc, function_groups, goto_text, instructions_well_formed,
    jump_frame, well_formed,
};
use crate::decode::{
    cb_text, reg_name, shift_name, decodable, flow_of, imm16, is_undefined_opcode, opcode_len, DecodedInstruction, FlowControl,
};

verus! {

/// The absolute address of a ROM address (below 0x8000) is its offset in the image, and
/// below 0x8000_0000; the absolute address of any other address does not depend on the
/// bank and has the top bit set, so it never names a ROM byte.
pub proof fn lemma_abs_addr_layout(bank: u16, pc: u16, other_bank: u16)
    ensures
        pc < 0x8000 ==> abs_addr_spec(bank, pc) as int == rom_offset(bank, pc)
            && abs_addr_spec(bank, pc) < 0x8000_0000,
        pc >= 0x8000 ==> abs_addr_spec(bank, pc) >= 0x8000_0000
            && abs_addr_spec(bank, pc) == abs_addr_spec(other_bank, pc),
        pc < 0x4000 ==> abs_addr_spec(bank, pc) == abs_addr_spec(other_bank, pc),
{
}

/// Distinct ROM positions have distinct absolute addresses: within the fixed bank by
/// address, and within the switchable window by bank (bank 0 standing for bank 1) and
/// address.
pub proof fn lemma_abs_addr_injective(b1: u16, p1: u16, b2: u16, p2: u16)
    requires
        p1 < 0x8000,
        p2 < 0x8000,
        abs_addr_spec(b1, p1) == abs_addr_spec(b2, p2),
    ensures
        p1 == p2,
        p1 >= 0x4000 ==> (if b1 == 0 { 1 } else { b1 }) == (if b2 == 0 { 1 } else { b2 }),
{
}

/// The bank and address in a function's C name lead back to the function: the dispatcher,
/// which looks functions up by `get_abs_addr(bank, pc)`, finds each function under the
/// numbers of its name.
pub proof fn lemma_function_name_round_trip(a: u32)
    requires
        a < 0x4000_0000,
    ensures
        abs_addr_spec(func_bank(a), func_pc(a)) == a,
        func_pc(a) < 0x8000,
        a >= 0x4000 ==> func_bank(a) >= 1 && func_pc(a) >= 0x4000,
{
    assert(a / 16384 < 65536);
    assert(a >= 0x4000 ==> a / 16384 >= 1);
    assert((a / 16384) * 16384 + a % 16384 == a);
}

/// Every instruction that the exploration stores holds its whole encoding, so its result
/// can be handed to `generate_c_project`.
pub proof fn lemma_explored_instructions_well_formed(
    rom: Seq<u8>,
    instrs: Map<u32, DecodedInstruction>,
)
    requires
        faithful(rom, instrs),
    ensures
        instructions_well_formed(instrs),
{
    assert forall|a: u32| #[trigger] instrs.dom().contains(a) implies well_formed(instrs[a]) by {
        assert(matches_rom(rom, a, instrs[a]));
        let off = rom_offset(instrs[a].bank, instrs[a].pc);
        assert(rom.skip(off)[0] == rom[off]);
    }
}

/// A function entry that holds decoded code is the function it belongs to, so it starts a
/// C function of its own.
pub proof fn lemma_entry_owns_itself(keys: Set<u32>, entries: Set<u32>, e: u32)
    requires
        keys.contains(e),
        entries.contains(e),
    ensures
        owner(keys, entries, e) == e,
{
    reveal(owner);
    let c = owner(keys, entries, e);
    assert(keys.contains(e) && entries.contains(e) && e <= e);
    assert(c <= e);
}

/// The C functions partition the decoded instructions: each decoded address is listed in
/// the function it belongs to and in no other.
pub proof fn lemma_functions_partition(
    instrs: Map<u32, DecodedInstruction>,
    entries: Set<u32>,
    a: u32,
    f: u32,
)
    requires
        instrs.dom().contains(a),
        strictly_increasing(sorted_listing(instrs.dom())),
        sorted_listing(instrs.dom()).to_set() == instrs.dom(),
    ensures
        function_groups(instrs, entries).dom().contains(owner(instrs.dom(), entries, a)),
        function_groups(instrs, entries)[owner(instrs.dom(), entries, a)].contains(a),
        function_groups(instrs, entries).dom().contains(f) && f != owner(instrs.dom(), entries, a)
            ==> !function_groups(instrs, entries)[f].contains(a),
{
    broadcast use vstd::seq::Seq::lemma_filter_contains_rev;
    broadcast use vstd::seq::Seq::lemma_filter_pred;
    let k = instrs.dom();
    let l = sorted_listing(k);
    let o = owner(k, entries, a);
    let fg = function_groups(instrs, entries);
    assert(fg.dom().contains(o));
    assert(l.to_set().contains(a));
    let i = choose|i: int| 0 <= i < l.len() && l[i] == a;
    l.lemma_filter_contains(owned_by(k, entries, o), i);
    if fg.dom().contains(f) && f != o && fg[f].contains(a) {
        let g = l.filter(owned_by(k, entries, f));
        let j = choose|j: int| 0 <= j < g.len() && g[j] == a;
        assert(owned_by(k, entries, f)(g[j]));
    }
}

/// Every function entry that holds decoded code gets a C function of its own, which lists
/// the entry itself.
pub proof fn lemma_entry_has_function(
    instrs: Map<u32, DecodedInstruction>,
    entries: Set<u32>,
    e: u32,
)
    requires
        instrs.dom().contains(e),
        entries.contains(e),
        strictly_increasing(sorted_listing(instrs.dom())),
        sorted_listing(instrs.dom()).to_set() == instrs.dom(),
    ensures
        function_groups(instrs, entries).dom().contains(e),
        function_groups(instrs, entries)[e].contains(e),
{
    lemma_entry_owns_itself(instrs.dom(), entries, e);
    lemma_functions_partition(instrs, entries, e, e);
}

/// Every defined opcode has a C statement: the unimplemented-opcode comment is only ever
/// written for the opcodes that the CPU leaves undefined.
pub proof fn lemma_defined_opcodes_translate(op: u8)
    requires
        !is_undefined_opcode(op),
    ensures
        (0x40 <= op < 0xC0) || op == 0xCB || !(c_form(op) is Unknown),
{
}

/// A decoded jump or branch becomes the statement framing of its opcode around a jump to
/// the decoded target: a `goto` to the target's label when the target is an instruction of
/// the current function, otherwise a hand-over to the runtime.
pub proof fn lemma_jump_translation(data: Seq<u8>, pc: u16, bank: u16, instrs: Seq<u32>, t: u16)
    requires
        decodable(data),
        flow_of(data, pc) == FlowControl::Jump(t) || flow_of(data, pc) == FlowControl::Branch(t),
    ensures
        c_text(data.take(opcode_len(data[0]) as int), pc, bank, instrs) == jump_frame(data[0]).0
            + goto_text(t, bank, instrs.contains(abs_addr_spec(bank, t))) + jump_frame(data[0]).1,
{
    let bytes = data.take(opcode_len(data[0]) as int);
    let op = data[0];
    assert(bytes[0] == op);
    if op == 0x18 || op == 0x20 || op == 0x28 || op == 0x30 || op == 0x38 {
        assert(bytes[1] == data[1]);
    } else {
        assert(bytes[1] == data[1] && bytes[2] == data[2]);
        assert(imm16(bytes) == imm16(data));
    }
}

/// `s` with its upper-case ASCII letters made lower-case.
pub open spec fn lower(s: Seq<char>) -> Seq<char> {
    s.map_values(|c: char| if 0x41 <= (c as u32) <= 0x5A { ((c as u32) + 32) as char } else { c })
}

proof fn lemma_shift_helper_named(k: nat)
    requires
        k < 8,
    ensures
        shift_fn(k) == "cpu_"@ + lower(shift_name(k)),
{
    reveal_strlit("cpu_");
    if k == 0 {
        reveal_strlit("RLC");
        reveal_strlit("cpu_rlc");
        assert(shift_fn(k) =~= "cpu_"@ + lower(shift_name(k)));
    } else if k == 1 {
        reveal_strlit("RRC");
        reveal_strlit("cpu_rrc");
        assert(shift_fn(k) =~= "cpu_"@ + lower(shift_name(k)));
    } else if k == 2 {
        reveal_strlit("RL");
        reveal_strlit("cpu_rl");
        assert(shift_fn(k) =~= "cpu_"@ + lower(shift_name(k)));
    } else if k == 3 {
        reveal_strlit("RR");
        reveal_strlit("cpu_rr");
        assert(shift_fn(k) =~= "cpu_"@ + lower(shift_name(k)));
    } else if k == 4 {
        reveal_strlit("SLA");
        reveal_strlit("cpu_sla");
        assert(shift_fn(k) =~= "cpu_"@ + lower(shift_name(k)));
    } else if k == 5 {
        reveal_strlit("SRA");
        reveal_strlit("cpu_sra");
        assert(shift_fn(k) =~= "cpu_"@ + lower(shift_name(k)));
    } else if k == 6 {
        reveal_strlit("SWAP");
        reveal_strlit("cpu_swap");
        assert(shift_fn(k) =~= "cpu_"@ + lower(shift_name(k)));
    } else {
        reveal_strlit("SRL");
        reveal_strlit("cpu_srl");
        assert(shift_fn(k) =~= "cpu_"@ + lower(shift_name(k)));
    }
}

proof fn lemma_register_named(r: nat)
    requires
        r < 8,
        r != 6,
    ensures
        c_reg(r) == lower(reg_name(r)),
{
    if r == 0 {
        reveal_strlit("B");
        reveal_strlit("b");
        assert(c_reg(r) =~= lower(reg_name(r)));
    } else if r == 1 {
        reveal_strlit("C");
        reveal_strlit("c");
        assert(c_reg(r) =~= lower(reg_name(r)));
    } else if r == 2 {
        reveal_strlit("D");
        reveal_strlit("d");
        assert(c_reg(r) =~= lower(reg_name(r)));
    } else if r == 3 {
        reveal_strlit("E");
        reveal_strlit("e");
        assert(c_reg(r) =~= lower(reg_name(r)));
    } else if r == 4 {
        reveal_strlit("H");
        reveal_strlit("h");
        assert(c_reg(r) =~= lower(reg_name(r)));
    } else if r == 5 {
        reveal_strlit("L");
        reveal_strlit("l");
        assert(c_reg(r) =~= lower(reg_name(r)));
    } else {
        reveal_strlit("A");
        reveal_strlit("a");
        assert(c_reg(r) =~= lower(reg_name(r)));
    }
}

/// The C statement of a CB-prefixed rotate or shift calls the runtime helper named after
/// the operation in its mnemonic, in lower case, on the operand its mnemonic names: the
/// register of that name in lower case, or the byte at HL for `(HL)`.
pub proof fn lemma_cb_shift_translation(op: u8)
    requires
        op < 0x40,
    ensures
        ({
            let k = (op / 8) as nat;
            let r = (op % 8) as nat;
            &&& cb_text(op) == shift_name(k) + " "@ + reg_name(r)
            &&& cb_c_text(op) == write_expr(
                r,
                "cpu_"@ + lower(shift_name(k)) + "(cpu, "@ + read_expr(r) + ")"@,
            )
            &&& r == 6 ==> reg_name(r) == "(HL)"@ && read_expr(r) == "read8(cpu, cpu->hl)"@
            &&& r != 6 ==> c_reg(r) == lower(reg_name(r)) && read_expr(r) == "cpu->"@ + lower(
                reg_name(r),
            )
        }),
{
    let k = (op / 8) as nat;
    let r = (op % 8) as nat;
    lemma_shift_helper_named(k);
    if r != 6 {
        lemma_register_named(r);
    }
}

/// `part` occurs in `text`.
pub open spec fn has_part(text: Seq<char>, part: Seq<char>) -> bool {
    exists|i: int| 0 <= i && i + part.len() <= text.len() && #[trigger] text.subrange(i, i + part.len()) == part
}

/// The runtime statement that hands control over after an instruction with flow `flow`
/// whose successor is at `next`: the call of a subroutine, the return, the jump through HL
/// and the halt (empty for other flows).
pub open spec fn handover_text(flow: FlowControl, next: u16) -> Seq<char> {
    match flow {
        FlowControl::Call(t) => "cpu_call(cpu, 0x"@ + hex_fixed(t as nat, 4) + ", 0x"@ + hex_fixed(
            next as nat,
            4,
        ) + "); return;"@,
        FlowControl::Return => "cpu_ret(cpu); return;"@,
        FlowControl::JumpIndirect => "goto_pc(cpu, cpu->hl); return;"@,
        FlowControl::Halt => "cpu->halted = true; cpu->cycles += 4; cpu->pc = 0x"@ + hex_fixed(
            next as nat,
            4,
        ) + "; return;"@,
        _ => Seq::empty(),
    }
}

/// Calls, returns, jumps through HL and halts each emit their hand-over to the runtime
/// (see `handover_text`), with the decoded target and the address of the next instruction.
#[verifier::spinoff_prover]
#[verifier::rlimit(40)]
pub proof fn lemma_handover_translation(data: Seq<u8>, pc: u16, bank: u16, instrs: Seq<u32>)
    requires
        decodable(data),
        flow_of(data, pc) is Call || flow_of(data, pc) is Return || flow_of(data, pc) is JumpIndirect
            || flow_of(data, pc) is Halt,
    ensures
        has_part(
            c_text(data.take(opcode_len(data[0]) as int), pc, bank, instrs),
            handover_text(flow_of(data, pc), ((pc + opcode_len(data[0])) % 65536) as u16),
        ),
{
    let bytes = data.take(opcode_len(data[0]) as int);
    let op = data[0];
    let next = ((pc + opcode_len(data[0])) % 65536) as u16;
    let text = c_text(bytes, pc, bank, instrs);
    let h = handover_text(flow_of(data, pc), next);
    assert(bytes[0] == op);
    if opcode_len(op) == 3 {
        assert(bytes[1] == data[1] && bytes[2] == data[2]);
        assert(imm16(bytes) == imm16(data));
    }
    if op == 0xC4 {
        reveal_strlit("if (!(cpu->f & FLAG_Z)) { cpu->cycles += 24; cpu_call(cpu, 0x");
        reveal_strlit("); return; } else { cpu->cycles += 12; }");
        reveal_strlit("if (!(cpu->f & FLAG_Z)) { cpu->cycles += 24; ");
        reveal_strlit(" } else { cpu->cycles += 12; }");
        reveal_strlit("cpu_call(cpu, 0x");
        reveal_strlit(", 0x");
        reveal_strlit("); return;");
        assert(text =~= "if (!(cpu->f & FLAG_Z)) { cpu->cycles += 24; "@ + h + " } else { cpu->cycles += 12; }"@);
        assert(text.subrange("if (!(cpu->f & FLAG_Z)) { cpu->cycles += 24; "@.len() as int, "if (!(cpu->f & FLAG_Z)) { cpu->cycles += 24; "@.len() + h.len() as int) =~= h);
    } else if op == 0xCC {
        reveal_strlit("if (cpu->f & FLAG_Z) { cpu->cycles += 24; cpu_call(cpu, 0x");
        reveal_strlit("); return; } else { cpu->cycles += 12; }");
        reveal_strlit("if (cpu->f & FLAG_Z) { cpu->cycles += 24; ");
        reveal_strlit(" } else { cpu->cycles += 12; }");
        reveal_strlit("cpu_call(cpu, 0x");
        reveal_strlit(", 0x");
        reveal_strlit("); return;");
        assert(text =~= "if (cpu->f & FLAG_Z) { cpu->cycles += 24; "@ + h + " } else { cpu->cycles += 12; }"@);
        assert(text.subrange("if (cpu->f & FLAG_Z) { cpu->cycles += 24; "@.len() as int, "if (cpu->f & FLAG_Z) { cpu->cycles += 24; "@.len() + h.len() as int) =~= h);
    } else if op == 0xCD {
        reveal_strlit("cpu->cycles += 24; cpu_call(cpu, 0x");
        reveal_strlit("); return;");
        reveal_strlit("cpu->cycles += 24; ");
        reveal_strlit("");
        reveal_strlit("cpu_call(cpu, 0x");
        reveal_strlit(", 0x");
        assert(text =~= "cpu->cycles += 24; "@ + h + ""@);
        assert(text.subrange("cpu->cycles += 24; "@.len() as int, "cpu->cycles += 24; "@.len() + h.len() as int) =~= h);
    } else if op == 0xD4 {
        reveal_strlit("if (!(cpu->f & FLAG_C)) { cpu->cycles += 24; cpu_call(cpu, 0x");
        reveal_strlit("); return; } else { cpu->cycles += 12; }");
        reveal_strlit("if (!(cpu->f & FLAG_C)) { cpu->cycles += 24; ");
        reveal_strlit(" } else { cpu->cycles += 12; }");
        reveal_strlit("cpu_call(cpu, 0x");
        reveal_strlit(", 0x");
        reveal_strlit("); return;");
        assert(text =~= "if (!(cpu->f & FLAG_C)) { cpu->cycles += 24; "@ + h + " } else { cpu->cycles += 12; }"@);
        assert(text.subrange("if (!(cpu->f & FLAG_C)) { cpu->cycles += 24; "@.len() as int, "if (!(cpu->f & FLAG_C)) { cpu->cycles += 24; "@.len() + h.len() as int) =~= h);
    } else if op == 0xDC {
        reveal_strlit("if (cpu->f & FLAG_C) { cpu->cycles += 24; cpu_call(cpu, 0x");
        reveal_strlit("); return; } else { cpu->cycles += 12; }");
        reveal_strlit("if (cpu->f & FLAG_C) { cpu->cycles += 24; ");
        reveal_strlit(" } else { cpu->cycles += 12; }");
        reveal_strlit("cpu_call(cpu, 0x");
        reveal_strlit(", 0x");
        reveal_strlit("); return;");
        assert(text =~= "if (cpu->f & FLAG_C) { cpu->cycles += 24; "@ + h + " } else { cpu->cycles += 12; }"@);
        assert(text.subrange("if (cpu->f & FLAG_C) { cpu->cycles += 24; "@.len() as int, "if (cpu->f & FLAG_C) { cpu->cycles += 24; "@.len() + h.len() as int) =~= h);
    } else if op == 0xC7 {
        reveal_strlit("cpu->cycles += 16; cpu_call(cpu, 0x0000, 0x");
        reveal_strlit("); return;");
        reveal_strlit("cpu->cycles += 16; ");
        reveal_strlit("");
        reveal_strlit("cpu_call(cpu, 0x");
        reveal_strlit(", 0x");
        reveal_with_fuel(hex_fixed, 5);
        assert(text =~= "cpu->cycles += 16; "@ + h + ""@);
        assert(text.subrange("cpu->cycles += 16; "@.len() as int, "cpu->cycles += 16; "@.len() + h.len() as int) =~= h);
    } else if op == 0xCF {
        reveal_strlit("cpu->cycles += 16; cpu_call(cpu, 0x0008, 0x");
        reveal_strlit("); return;");
        reveal_strlit("cpu->cycles += 16; ");
        reveal_strlit("");
        reveal_strlit("cpu_call(cpu, 0x");
        reveal_strlit(", 0x");
        reveal_with_fuel(hex_fixed, 5);
        assert(text =~= "cpu->cycles += 16; "@ + h + ""@);
        assert(text.subrange("cpu->cycles += 16; "@.len() as int, "cpu->cycles += 16; "@.len() + h.len() as int) =~= h);
    } else if op == 0xD7 {
        reveal_strlit("cpu->cycles += 16; cpu_call(cpu, 0x0010, 0x");
        reveal_strlit("); return;");
        reveal_strlit("cpu->cycles += 16; ");
        reveal_strlit("");
        reveal_strlit("cpu_call(cpu, 0x");
        reveal_strlit(", 0x");
        reveal_with_fuel(hex_fixed, 5);
        assert(text =~= "cpu->cycles += 16; "@ + h + ""@);
        assert(text.subrange("cpu->cycles += 16; "@.len() as int, "cpu->cycles += 16; "@.len() + h.len() as int) =~= h);
    } else if op == 0xDF {
        reveal_strlit("cpu->cycles += 16; cpu_call(cpu, 0x0018, 0x");
        reveal_strlit("); return;");
        reveal_strlit("cpu->cycles += 16; ");
        reveal_strlit("");
        reveal_strlit("cpu_call(cpu, 0x");
        reveal_strlit(", 0x");
        reveal_with_fuel(hex_fixed, 5);
        assert(text =~= "cpu->cycles += 16; "@ + h + ""@);
        assert(text.subrange("cpu->cycles += 16; "@.len() as int, "cpu->cycles += 16; "@.len() + h.len() as int) =~= h);
    } else if op == 0xE7 {
        reveal_strlit("cpu->cycles += 16; cpu_call(cpu, 0x0020, 0x");
        reveal_strlit("); return;");
        reveal_strlit("cpu->cycles += 16; ");
        reveal_strlit("");
        reveal_strlit("cpu_call(cpu, 0x");
        reveal_strlit(", 0x");
        reveal_with_fuel(hex_fixed, 5);
        assert(text =~= "cpu->cycles += 16; "@ + h + ""@);
        assert(text.subrange("cpu->cycles += 16; "@.len() as int, "cpu->cycles += 16; "@.len() + h.len() as int) =~= h);
    } else if op == 0xEF {
        reveal_strlit("cpu->cycles += 16; cpu_call(cpu, 0x0028, 0x");
        reveal_strlit("); return;");
        reveal_strlit("cpu->cycles += 16; ");
        reveal_strlit("");
        reveal_strlit("cpu_call(cpu, 0x");
        reveal_strlit(", 0x");
        reveal_with_fuel(hex_fixed, 5);
        assert(text =~= "cpu->cycles += 16; "@ + h + ""@);
        assert(text.subrange("cpu->cycles += 16; "@.len() as int, "cpu->cycles += 16; "@.len() + h.len() as int) =~= h);
    } else if op == 0xF7 {
        reveal_strlit("cpu->cycles += 16; cpu_call(cpu, 0x0030, 0x");
        reveal_strlit("); return;");
        reveal_strlit("cpu->cycles += 16; ");
        reveal_strlit("");
        reveal_strlit("cpu_call(cpu, 0x");
        reveal_strlit(", 0x");
        reveal_with_fuel(hex_fixed, 5);
        assert(text =~= "cpu->cycles += 16; "@ + h + ""@);
        assert(text.subrange("cpu->cycles += 16; "@.len() as int, "cpu->cycles += 16; "@.len() + h.len() as int) =~= h);
    } else if op == 0xFF {
        reveal_strlit("cpu->cycles += 16; cpu_call(cpu, 0x0038, 0x");
        reveal_strlit("); return;");
        reveal_strlit("cpu->cycles += 16; ");
        reveal_strlit("");
        reveal_strlit("cpu_call(cpu, 0x");
        reveal_strlit(", 0x");
        reveal_with_fuel(hex_fixed, 5);
        assert(text =~= "cpu->cycles += 16; "@ + h + ""@);
        assert(text.subrange("cpu->cycles += 16; "@.len() as int, "cpu->cycles += 16; "@.len() + h.len() as int) =~= h);
    } else if op == 0xC9 {
        reveal_strlit("cpu->cycles += 16; cpu_ret(cpu); return;");
        reveal_strlit("cpu->cycles += 16; ");
        reveal_strlit("");
        reveal_strlit("cpu_ret(cpu); return;");
        assert(text =~= "cpu->cycles += 16; "@ + h + ""@);
        assert(text.subrange("cpu->cycles += 16; "@.len() as int, "cpu->cycles += 16; "@.len() + h.len() as int) =~= h);
    } else if op == 0xD9 {
        reveal_strlit("cpu->cycles += 16; cpu->ime = true; cpu_ret(cpu); return;");
        reveal_strlit("cpu->cycles += 16; cpu->ime = true; ");
        reveal_strlit("");
        reveal_strlit("cpu_ret(cpu); return;");
        assert(text =~= "cpu->cycles += 16; cpu->ime = true; "@ + h + ""@);
        assert(text.subrange("cpu->cycles += 16; cpu->ime = true; "@.len() as int, "cpu->cycles += 16; cpu->ime = true; "@.len() + h.len() as int) =~= h);
    } else if op == 0xE9 {
        reveal_strlit("cpu->cycles += 4; goto_pc(cpu, cpu->hl); return;");
        reveal_strlit("cpu->cycles += 4; ");
        reveal_strlit("");
        reveal_strlit("goto_pc(cpu, cpu->hl); return;");
        assert(text =~= "cpu->cycles += 4; "@ + h + ""@);
        assert(text.subrange("cpu->cycles += 4; "@.len() as int, "cpu->cycles += 4; "@.len() + h.len() as int) =~= h);
    } else if op == 0x10 {
        reveal_strlit("cpu->halted = true; cpu->cycles += 4; cpu->pc = 0x");
        reveal_strlit("; return;");
        reveal_strlit("");
        assert(text =~= ""@ + h + ""@);
        assert(text.subrange(""@.len() as int, ""@.len() + h.len() as int) =~= h);
    } else if op == 0x76 {
        reveal_strlit("cpu->halted = true; cpu->cycles += 4; cpu->pc = 0x");
        reveal_strlit("; return;");
        reveal_strlit("");
        assert(text =~= ""@ + h + ""@);
        assert(text.subrange(""@.len() as int, ""@.len() + h.len() as int) =~= h);
    }
}

/// The dispatcher's `case` for the function at absolute address `f`.
pub open spec fn case_line(f: u32) -> Seq<char> {
    "        case 0x"@ + hex_fixed(f as nat, 8) + ": "@ + func_name(f) + "(cpu); break;\n"@
}

proof fn lemma_has_part_within(pre: Seq<char>, mid: Seq<char>, post: Seq<char>, part: Seq<char>)
    requires
        has_part(mid, part),
    ensures
        has_part(pre + mid + post, part),
{
    let i = choose|i: int| 0 <= i && i + part.len() <= mid.len() && #[trigger] mid.subrange(i, i + part.len()) == part;
    let t = pre + mid + post;
    assert(t.subrange(pre.len() + i, pre.len() + i + part.len()) =~= mid.subrange(i, i + part.len()));
}

proof fn lemma_case_lines_have(funcs: Seq<u32>, f: u32)
    requires
        funcs.contains(f),
    ensures
        has_part(case_lines(funcs), case_line(f)),
    decreases funcs.len(),
{
    let init = funcs.drop_last();
    let last = case_line(funcs.last());
    assert(case_lines(funcs) =~= case_lines(init) + last + Seq::<char>::empty());
    if funcs.last() == f {
        let z: int = 0;
        assert(last.subrange(z, z + last.len()) =~= last);
        assert(has_part(last, last));
        lemma_has_part_within(case_lines(init), last, Seq::empty(), case_line(f));
    } else {
        let j = choose|j: int| 0 <= j < funcs.len() && funcs[j] == f;
        assert(init[j] == f);
        lemma_case_lines_have(init, f);
        lemma_has_part_within(Seq::empty(), case_lines(init), last, case_line(f));
        assert(Seq::<char>::empty() + case_lines(init) + last =~= case_lines(init) + last + Seq::<char>::empty());
    }
}

/// Each function gets a dispatcher `case` that tests its absolute address and calls it by
/// its name, whose bank and address the runtime's `get_abs_addr` maps back to that
/// address.
#[verifier::spinoff_prover]
#[verifier::rlimit(40)]
pub proof fn lemma_dispatch_cases(funcs: Seq<u32>, f: u32)
    requires
        funcs.contains(f),
        f < 0x4000_0000,
    ensures
        has_part(dispatcher_c_text(funcs), case_line(f)),
        case_line(f) == "        case 0x"@ + hex_fixed(f as nat, 8) + ": fn_"@ + hex_min(func_bank(f) as nat, 2)
            + "_"@ + hex_fixed(func_pc(f) as nat, 4) + "(cpu); break;\n"@,
        abs_addr_spec(func_bank(f), func_pc(f)) == f,
{
    lemma_case_lines_have(funcs, f);
    lemma_has_part_within(
        "#include \"game.h\"\n#include \"runtime.h\"\n\nvoid dispatch(CPUState* cpu, uint16_t bank, uint16_t pc) {\n    uint32_t abs_addr = get_abs_addr(bank, pc);\n    switch (abs_addr) {\n"@,
        case_lines(funcs),
        "        default:\n            break;\n    }\n}\n"@,
        case_line(f),
    );
    reveal_strlit(": ");
    reveal_strlit("fn_");
    reveal_strlit(": fn_");
    assert(case_line(f) =~= "        case 0x"@ + hex_fixed(f as nat, 8) + ": fn_"@ + hex_min(func_bank(f) as nat, 2)
        + "_"@ + hex_fixed(func_pc(f) as nat, 4) + "(cpu); break;\n"@);
    lemma_function_name_round_trip(f);
}

/// The statement line of instruction `inst` inside the function for `bank` whose addresses
/// are `group`, preceded by the synchronisation when the instruction needs one.
pub open spec fn synced_statement(inst: DecodedInstruction, bank: u16, group: Seq<u32>) -> Seq<char> {
    (if needs_sync(inst) {
        "    cpu->pc = 0x"@ + hex_fixed(inst.pc as nat, 4) + ";\n    sync_hardware(cpu);\n    if (cpu->pc != 0x"@
            + hex_fixed(inst.pc as nat, 4) + ") return;\n"@
    } else {
        Seq::empty()
    }) + "    "@ + c_text(inst.bytes@, inst.pc, bank, group) + " // "@ + inst.mnemonic@ + "\n"@
}

proof fn lemma_instr_lines_have(
    instrs: Map<u32, DecodedInstruction>,
    targets: Set<u32>,
    bank: u16,
    group: Seq<u32>,
    addrs: Seq<u32>,
    start: u16,
    a: u32,
)
    requires
        addrs.contains(a),
    ensures
        has_part(instr_lines(instrs, targets, bank, group, addrs, start), synced_statement(instrs[a], bank, group)),
    decreases addrs.len(),
{
    let init = addrs.drop_last();
    let prev = instr_lines(instrs, targets, bank, group, init, start);
    let last = instr_text(instrs[addrs.last()], addrs.last(), targets, bank, group, end_of(instrs, init, start));
    assert(instr_lines(instrs, targets, bank, group, addrs, start) =~= prev + last + Seq::<char>::empty());
    if addrs.last() == a {
        let inst = instrs[a];
        let st = synced_statement(inst, bank, group);
        let label = if targets.contains(a) || inst.pc != end_of(instrs, init, start) {
            "loc_"@ + hex_min(bank as nat, 2) + "_"@ + hex_fixed(inst.pc as nat, 4) + ":\n"@
        } else {
            Seq::empty()
        };
        assert(last =~= label + st + Seq::<char>::empty());
        let z: int = 0;
        assert(st.subrange(z, z + st.len()) =~= st);
        lemma_has_part_within(label, st, Seq::empty(), st);
        lemma_has_part_within(prev, last, Seq::empty(), st);
    } else {
        let j = choose|j: int| 0 <= j < addrs.len() && addrs[j] == a;
        assert(init[j] == a);
        lemma_instr_lines_have(instrs, targets, bank, group, init, start, a);
        lemma_has_part_within(Seq::empty(), prev, last, synced_statement(instrs[a], bank, group));
        assert(Seq::<char>::empty() + prev + last =~= prev + last + Seq::<char>::empty());
    }
}

proof fn lemma_function_texts_have(
    instrs: Map<u32, DecodedInstruction>,
    targets: Set<u32>,
    groups: Map<u32, Seq<u32>>,
    funcs: Seq<u32>,
    f: u32,
)
    requires
        funcs.contains(f),
    ensures
        has_part(function_texts(instrs, targets, groups, funcs), function_text(instrs, targets, f, groups[f])),
    decreases funcs.len(),
{
    let init = funcs.drop_last();
    let prev = function_texts(instrs, targets, groups, init);
    let last = function_text(instrs, targets, funcs.last(), groups[funcs.last()]);
    assert(function_texts(instrs, targets, groups, funcs) =~= prev + last + Seq::<char>::empty());
    if funcs.last() == f {
        let z: int = 0;
        assert(last.subrange(z, z + last.len()) =~= last);
        lemma_has_part_within(prev, last, Seq::empty(), last);
    } else {
        let j = choose|j: int| 0 <= j < funcs.len() && funcs[j] == f;
        assert(init[j] == f);
        lemma_function_texts_have(instrs, targets, groups, init, f);
        lemma_has_part_within(Seq::empty(), prev, last, function_text(instrs, targets, f, groups[f]));
        assert(Seq::<char>::empty() + prev + last =~= prev + last + Seq::<char>::empty());
    }
}

/// game.c holds one C function per function, named after it, and that function holds, for
/// each of its instructions, the instruction's C statement followed by its mnemonic as a
/// comment, preceded by the synchronisation with the hardware when the instruction changes
/// control flow or writes to an absolute or 0xFFxx address.
#[verifier::spinoff_prover]
#[verifier::rlimit(40)]
pub proof fn lemma_game_c_layout(
    groups: Map<u32, Seq<u32>>,
    instrs: Map<u32, DecodedInstruction>,
    targets: Set<u32>,
    f: u32,
    a: u32,
)
    requires
        strictly_increasing(sorted_listing(groups.dom())),
        sorted_listing(groups.dom()).to_set() == groups.dom(),
        groups.dom().contains(f),
        groups[f].contains(a),
    ensures
        has_part(game_c_text(groups, instrs, targets), function_text(instrs, targets, f, groups[f])),
        has_part(
            function_text(instrs, targets, f, groups[f]),
            synced_statement(instrs[a], func_bank(f), groups[f]),
        ),
        function_text(instrs, targets, f, groups[f]).take(func_name(f).len() + 23int) == "void "@ + func_name(f)
            + "(CPUState* cpu) {\n"@,
{
    let l = sorted_listing(groups.dom());
    assert(l.to_set().contains(f));
    let ft = function_text(instrs, targets, f, groups[f]);
    assert(has_part(game_c_text(groups, instrs, targets), ft)) by {
        lemma_function_texts_have(instrs, targets, groups, l, f);
        lemma_has_part_within(
            "#include \"game.h\"\n#include \"runtime.h\"\n\n"@,
            function_texts(instrs, targets, groups, l),
            Seq::empty(),
            ft,
        );
        assert(game_c_text(groups, instrs, targets) =~= "#include \"game.h\"\n#include \"runtime.h\"\n\n"@
            + function_texts(instrs, targets, groups, l) + Seq::<char>::empty());
    }
    lemma_function_text_parts(instrs, targets, f, groups[f], a);
}

proof fn lemma_function_text_parts(
    instrs: Map<u32, DecodedInstruction>,
    targets: Set<u32>,
    f: u32,
    g: Seq<u32>,
    a: u32,
)
    requires
        g.contains(a),
    ensures
        has_part(function_text(instrs, targets, f, g), synced_statement(instrs[a], func_bank(f), g)),
        function_text(instrs, targets, f, g).take(func_name(f).len() + 23int) == "void "@ + func_name(f)
            + "(CPUState* cpu) {\n"@,
{
    let body = instr_lines(instrs, targets, func_bank(f), g, g, func_pc(f));
    let head = "void "@ + func_name(f) + "(CPUState* cpu) {\n"@;
    let tail = "    cpu->pc = 0x"@ + hex_fixed(end_of(instrs, g, func_pc(f)) as nat, 4) + ";\n}\n\n"@;
    assert(function_text(instrs, targets, f, g) =~= head + body + tail);
    lemma_instr_lines_have(instrs, targets, func_bank(f), g, g, func_pc(f), a);
    lemma_has_part_within(head, body, tail, synced_statement(instrs[a], func_bank(f), g));
    assert(head.len() == func_name(f).len() + 23) by {
        reveal_strlit("void ");
        reveal_strlit("(CPUState* cpu) {\n");
    }
    assert((head + body + tail).take(head.len() as int) =~= head);
}

/// The value of a hexadecimal digit.
pub open spec fn hex_value(c: char) -> nat {
    if 0x30 <= (c as u32) <= 0x39 {
        ((c as u32) - 0x30) as nat
    } else {
        ((c as u32) - 0x41 + 10) as nat
    }
}

proof fn lemma_hex_digit_value(n: nat)
    requires
        n < 16,
    ensures
        hex_value(hex_digit(n)) == n,
{
    if n == 0 {
    } else if n == 1 {
    } else if n == 2 {
    } else if n == 3 {
    } else if n == 4 {
    } else if n == 5 {
    } else if n == 6 {
    } else if n == 7 {
    } else if n == 8 {
    } else if n == 9 {
    } else if n == 10 {
    } else if n == 11 {
    } else if n == 12 {
    } else if n == 13 {
    } else if n == 14 {
    } else {
    }
}

/// rom_data.c lists the image byte by byte, in order: entry `i` is `0x`, two hexadecimal
/// digits that read back as byte `i` of the image, and a comma.
pub proof fn lemma_rom_bytes_listed(data: Seq<u8>, i: int)
    requires
        0 <= i < data.len(),
    ensures
        byte_entries(data.take(i + 1)) == byte_entries(data.take(i)) + byte_entry(i, data[i]),
        byte_entries(data.take(data.len() as int)) == byte_entries(data),
        has_part(byte_entry(i, data[i]), "0x"@ + hex_fixed(data[i] as nat, 2) + ", "@),
        hex_fixed(data[i] as nat, 2).len() == 2,
        16 * hex_value(hex_fixed(data[i] as nat, 2)[0]) + hex_value(hex_fixed(data[i] as nat, 2)[1])
            == data[i],
{
    let t = data.take(i + 1);
    assert(t.drop_last() =~= data.take(i));
    assert(data.take(data.len() as int) =~= data);
    let b = data[i] as nat;
    reveal_with_fuel(hex_fixed, 3);
    assert(hex_fixed(b, 2) =~= seq![hex_digit((b / 16) % 16), hex_digit(b % 16)]);
    lemma_hex_digit_value((b / 16) % 16);
    lemma_hex_digit_value(b % 16);
    let part = "0x"@ + hex_fixed(b, 2) + ", "@;
    let pre = if i % 16 == 0 { "    "@ } else { Seq::empty() };
    let post = if i % 16 == 15 { "\n"@ } else { Seq::empty() };
    assert(byte_entry(i, data[i]) =~= pre + part + post);
    let z: int = 0;
    assert(part.subrange(z, z + part.len()) =~= part);
    lemma_has_part_within(pre, part, post, part);
}

/// The label line for the instruction at `pc` in a function for `bank`.
pub open spec fn label_line(bank: u16, pc: u16) -> Seq<char> {
    "loc_"@ + hex_min(bank as nat, 2) + "_"@ + hex_fixed(pc as nat, 4) + ":\n"@
}

proof fn lemma_instr_lines_have_label(
    instrs: Map<u32, DecodedInstruction>,
    targets: Set<u32>,
    bank: u16,
    group: Seq<u32>,
    addrs: Seq<u32>,
    start: u16,
    a: u32,
)
    requires
        addrs.contains(a),
        targets.contains(a),
    ensures
        has_part(instr_lines(instrs, targets, bank, group, addrs, start), label_line(bank, instrs[a].pc)),
    decreases addrs.len(),
{
    let init = addrs.drop_last();
    let prev = instr_lines(instrs, targets, bank, group, init, start);
    let last = instr_text(instrs[addrs.last()], addrs.last(), targets, bank, group, end_of(instrs, init, start));
    let lab = label_line(bank, instrs[a].pc);
    assert(instr_lines(instrs, targets, bank, group, addrs, start) =~= prev + last + Seq::<char>::empty());
    if addrs.last() == a {
        let rest = synced_statement(instrs[a], bank, group);
        assert(last =~= Seq::<char>::empty() + lab + rest);
        let z: int = 0;
        assert(lab.subrange(z, z + lab.len()) =~= lab);
        lemma_has_part_within(Seq::empty(), lab, rest, lab);
        lemma_has_part_within(prev, last, Seq::empty(), lab);
    } else {
        let j = choose|j: int| 0 <= j < addrs.len() && addrs[j] == a;
        assert(init[j] == a);
        lemma_instr_lines_have_label(instrs, targets, bank, group, init, start, a);
        lemma_has_part_within(Seq::empty(), prev, last, lab);
        assert(Seq::<char>::empty() + prev + last =~= prev + last + Seq::<char>::empty());
    }
}

/// In an exploration's output, a jump or branch whose target is an instruction of its own
/// C function (one that stays within one 16 KiB bank of an image of at least two banks)
/// finds the label that its `goto` names in that function: the target is a recorded jump
/// target, and the target's label line is written there.
#[verifier::spinoff_prover]
#[verifier::rlimit(40)]
pub proof fn lemma_local_gotos_have_labels(
    rom: Seq<u8>,
    instrs: Map<u32, DecodedInstruction>,
    entries: Set<u32>,
    targets: Set<u32>,
    groups: Map<u32, Seq<u32>>,
    f: u32,
    x: u32,
    t: u16,
)
    requires
        faithful(rom, instrs),
        successors_explored(rom, instrs, entries, targets),
        forall|a: u32| #[trigger] instrs.dom().contains(a) ==> instrs[a].pc < 0x8000,
        bank_count(rom) >= 2,
        f < 0x4000_0000,
        groups.dom().contains(f),
        forall|k: u32| #[trigger] groups[f].contains(k) ==> instrs.dom().contains(k) && k / 16384 == f / 16384,
        groups[f].contains(x),
        instrs[x].flow == FlowControl::Jump(t) || instrs[x].flow == FlowControl::Branch(t),
        t < 0x8000,
        groups[f].contains(abs_addr_spec(func_bank(f), t)),
    ensures
        targets.contains(abs_addr_spec(func_bank(f), t)),
        has_part(function_text(instrs, targets, f, groups[f]), label_line(func_bank(f), t)),
{
    let bk = func_bank(f);
    let ta = abs_addr_spec(bk, t);
    let inst = instrs[x];
    let nb = bank_count(rom);
    assert(instrs.dom().contains(x));
    assert(successors_hold(inst, nb, explored_fn(rom, instrs.dom()), member_fn(entries), member_fn(targets)));
    assert(fanout_holds(inst.bank, t, nb, member_fn(targets)));
    assert(bk as int == f / 16384);
    assert(x / 16384 == f / 16384 && ta / 16384 == f / 16384);
    assert(matches_rom(rom, x, inst));
    if t >= 0x4000 {
        assert(ta >= 0x4000);
        assert(bk >= 1);
        assert(inst.pc >= 0x4000);
        if inst.bank >= 2 {
            assert(abs_addr_spec(inst.bank, t) == ta);
        } else {
            assert(member_fn(targets)(abs_addr_spec(1, t)));
            assert(abs_addr_spec(1, t) == ta);
        }
    }
    assert(targets.contains(ta));
    assert(matches_rom(rom, ta, instrs[ta]));
    lemma_abs_addr_injective(bk, t, instrs[ta].bank, instrs[ta].pc);
    let body = instr_lines(instrs, targets, bk, groups[f], groups[f], func_pc(f));
    let head = "void "@ + func_name(f) + "(CPUState* cpu) {\n"@;
    let tail = "    cpu->pc = 0x"@ + hex_fixed(end_of(instrs, groups[f], func_pc(f)) as nat, 4) + ";\n}\n\n"@;
    lemma_instr_lines_have_label(instrs, targets, bk, groups[f], groups[f], func_pc(f), ta);
    lemma_has_part_within(head, body, tail, label_line(bk, t));
    assert(function_text(instrs, targets, f, groups[f]) =~= head + body + tail);
}

/// `s` holds no letter `g`.
pub open spec fn no_g(s: Seq<char>) -> bool {
    forall|i: int| 0 <= i < s.len() ==> s[i] != 'g'
}

proof fn lemma_no_g_concat(a: Seq<char>, b: Seq<char>)
    requires
        no_g(a),
        no_g(b),
    ensures
        no_g(a + b),
{
    assert forall|i: int| 0 <= i < (a + b).len() implies (a + b)[i] != 'g' by {
        if i < a.len() {
            assert((a + b)[i] == a[i]);
        } else {
            assert((a + b)[i] == b[i - a.len()]);
        }
    }
}

proof fn lemma_hex_fixed_no_g(v: nat, w: nat)
    ensures
        no_g(hex_fixed(v, w)),
    decreases w,
{
    if w > 0 {
        lemma_hex_fixed_no_g(v / 16, (w - 1) as nat);
        lemma_hex_digit_value(v % 16);
        let d = hex_digit(v % 16);
        assert(d != 'g');
        let h = hex_fixed(v / 16, (w - 1) as nat);
        assert forall|i: int| 0 <= i < h.push(d).len() implies h.push(d)[i] != 'g' by {
            if i < h.len() {
                assert(h.push(d)[i] == h[i]);
            }
        }
    }
}

proof fn lemma_hex_min_no_g(v: nat, w: nat)
    ensures
        no_g(hex_min(v, w)),
{
    lemma_hex_fixed_no_g(v, w);
    lemma_hex_fixed_no_g(v, hex_len(v));
}

/// A text made of `a`, `m` and `b`, where the only `g` is the first letter of `m`, holds no
/// other word starting with `g` than one that agrees with `m` on its fifth letter.
proof fn lemma_only_part_at_g(a: Seq<char>, m: Seq<char>, b: Seq<char>, p: Seq<char>)
    requires
        no_g(a),
        no_g(b),
        m.len() > 4,
        p.len() > 4,
        m[0] == 'g',
        no_g(m.skip(1)),
        p[0] == 'g',
        m[4] != p[4],
    ensures
        !has_part(a + m + b, p),
{
    let s = a + m + b;
    if has_part(s, p) {
        let i = choose|i: int| 0 <= i && i + p.len() <= s.len() && #[trigger] s.subrange(i, i + p.len()) == p;
        assert(s[i] == p[0]);
        if i < a.len() {
            assert(s[i] == a[i]);
        } else if i >= a.len() + m.len() {
            assert(s[i] == b[i - a.len() - m.len()]);
        } else if i > a.len() {
            assert(s[i] == m[i - a.len()]);
            assert(m.skip(1)[i - a.len() - 1] == m[i - a.len()]);
        } else {
            assert(s[i + 4] == p[4]);
            assert(s[i + 4] == m[4]);
        }
    }
}

/// A jump framed in `a` and `b` that go to `t` in bank `bank`.
proof fn lemma_goto_alone(a: Seq<char>, b: Seq<char>, t: u16, bank: u16, local: bool)
    requires
        no_g(a),
        no_g(b),
    ensures
        local ==> has_part(a + goto_text(t, bank, local) + b, goto_text(t, bank, local))
            && !has_part(a + goto_text(t, bank, local) + b, "goto_pc"@),
        !local ==> has_part(a + goto_text(t, bank, local) + b, goto_text(t, bank, local))
            && !has_part(a + goto_text(t, bank, local) + b, "goto loc_"@),
{
    let m = goto_text(t, bank, local);
    let z: int = 0;
    assert(m.subrange(z, z + m.len()) =~= m);
    lemma_has_part_within(a, m, b, m);
    lemma_hex_fixed_no_g(t as nat, 4);
    lemma_hex_min_no_g(bank as nat, 2);
    reveal_strlit("goto_pc");
    reveal_strlit("goto loc_");
    reveal_strlit("oto loc_");
    reveal_strlit("goto_pc(cpu, 0x");
    reveal_strlit("oto_pc(cpu, 0x");
    reveal_strlit("); return;");
    reveal_strlit("_");
    reveal_strlit(";");
    if local {
        let hb = hex_min(bank as nat, 2);
        let ht = hex_fixed(t as nat, 4);
        assert(m =~= "goto loc_"@ + hb + "_"@ + ht + ";"@);
        lemma_no_g_concat("oto loc_"@, hb);
        lemma_no_g_concat("oto loc_"@ + hb, "_"@);
        lemma_no_g_concat("oto loc_"@ + hb + "_"@, ht);
        lemma_no_g_concat("oto loc_"@ + hb + "_"@ + ht, ";"@);
        assert(m.skip(1) =~= "oto loc_"@ + hb + "_"@ + ht + ";"@);
        lemma_only_part_at_g(a, m, b, "goto_pc"@);
    } else {
        let ht = hex_fixed(t as nat, 4);
        assert(m =~= "goto_pc(cpu, 0x"@ + ht + "); return;"@);
        lemma_no_g_concat("oto_pc(cpu, 0x"@, ht);
        lemma_no_g_concat("oto_pc(cpu, 0x"@ + ht, "); return;"@);
        assert(m.skip(1) =~= "oto_pc(cpu, 0x"@ + ht + "); return;"@);
        lemma_only_part_at_g(a, m, b, "goto loc_"@);
    }
}

/// The statement of a decoded jump or branch holds the `goto` to the label of its target
/// (`goto loc_BB_TTTT;`) and no hand-over when the target is an instruction of the current
/// function, and otherwise the hand-over `goto_pc(cpu, 0xTTTT); return;` and no `goto` to a
/// label.
#[verifier::spinoff_prover]
#[verifier::rlimit(40)]
pub proof fn lemma_jump_goes_to_target(data: Seq<u8>, pc: u16, bank: u16, instrs: Seq<u32>, t: u16)
    requires
        decodable(data),
        flow_of(data, pc) == FlowControl::Jump(t) || flow_of(data, pc) == FlowControl::Branch(t),
    ensures
        ({
            let s = c_text(data.take(opcode_len(data[0]) as int), pc, bank, instrs);
            let local = instrs.contains(abs_addr_spec(bank, t));
            &&& local ==> has_part(s, "goto loc_"@ + hex_min(bank as nat, 2) + "_"@ + hex_fixed(t as nat, 4) + ";"@)
                && !has_part(s, "goto_pc"@)
            &&& !local ==> has_part(s, "goto_pc(cpu, 0x"@ + hex_fixed(t as nat, 4) + "); return;"@)
                && !has_part(s, "goto loc_"@)
        }),
{
    let op = data[0];
    lemma_jump_translation(data, pc, bank, instrs, t);
    let (a, b) = jump_frame(op);
    if op == 0x18 {
        reveal_strlit("cpu->cycles += 12; ");
        reveal_strlit("");
    } else if op == 0x20 {
        reveal_strlit("if (!(cpu->f & FLAG_Z)) { cpu->cycles += 12; ");
        reveal_strlit(" } else { cpu->cycles += 8; }");
    } else if op == 0x28 {
        reveal_strlit("if (cpu->f & FLAG_Z) { cpu->cycles += 12; ");
        reveal_strlit(" } else { cpu->cycles += 8; }");
    } else if op == 0x30 {
        reveal_strlit("if (!(cpu->f & FLAG_C)) { cpu->cycles += 12; ");
        reveal_strlit(" } else { cpu->cycles += 8; }");
    } else if op == 0x38 {
        reveal_strlit("if (cpu->f & FLAG_C) { cpu->cycles += 12; ");
        reveal_strlit(" } else { cpu->cycles += 8; }");
    } else if op == 0xC2 {
        reveal_strlit("if (!(cpu->f & FLAG_Z)) { cpu->cycles += 12; ");
        reveal_strlit(" } else { cpu->cycles += 12; }");
    } else if op == 0xC3 {
        reveal_strlit("cpu->cycles += 16; ");
        reveal_strlit("");
    } else if op == 0xCA {
        reveal_strlit("if (cpu->f & FLAG_Z) { cpu->cycles += 12; ");
        reveal_strlit(" } else { cpu->cycles += 12; }");
    } else if op == 0xD2 {
        reveal_strlit("if (!(cpu->f & FLAG_C)) { cpu->cycles += 12; ");
        reveal_strlit(" } else { cpu->cycles += 12; }");
    } else if op == 0xDA {
        reveal_strlit("if (cpu->f & FLAG_C) { cpu->cycles += 12; ");
        reveal_strlit(" } else { cpu->cycles += 12; }");
    }
    assert(no_g(a) && no_g(b));
    lemma_goto_alone(a, b, t, bank, instrs.contains(abs_addr_spec(bank, t)));
}

/// The statement of every decodable instruction is C code: it is not empty and does not
/// begin with a comment, so in particular not with the unimplemented-opcode comment.
#[verifier::spinoff_prover]
#[verifier::rlimit(60)]
pub proof fn lemma_decodable_translates(data: Seq<u8>, pc: u16, bank: u16, instrs: Seq<u32>)
    requires
        decodable(data),
    ensures
        ({
            let s = c_text(data.take(opcode_len(data[0]) as int), pc, bank, instrs);
            &&& s.len() > 0
            &&& s[0] != '/'
            &&& !(s.len() >= 23 && s.take(23) == "// Unimplemented opcode"@)
        }),
{
    let op = data[0];
    let bytes = data.take(opcode_len(data[0]) as int);
    assert(bytes[0] == op);
    let s = c_text(bytes, pc, bank, instrs);
    reveal_strlit("// Unimplemented opcode");
    if 0x40 <= op < 0x80 && op != 0x76 {
        reveal_strlit("write8(cpu, cpu->hl, cpu->");
        reveal_strlit("cpu->");
    } else if 0x80 <= op < 0xC0 {
        reveal_strlit("cpu_add_a");
        reveal_strlit("cpu_adc_a");
        reveal_strlit("cpu_sub_a");
        reveal_strlit("cpu_sbc_a");
        reveal_strlit("cpu_and_a");
        reveal_strlit("cpu_xor_a");
        reveal_strlit("cpu_or_a");
        reveal_strlit("cpu_cp_a");
    } else if op == 0xCB {
        reveal_strlit("write8(cpu, cpu->hl, ");
        reveal_strlit("cpu->");
        reveal_strlit("cpu_bit(cpu, ");
    } else {
        if op == 0x00 {
            reveal_strlit("cpu->cycles += 4;");
        } else if op == 0x01 {
            reveal_strlit("cpu->bc = 0x");
        } else if op == 0x02 {
            reveal_strlit("write8(cpu, cpu->bc, cpu->a); cpu->cycles += 8;");
        } else if op == 0x03 {
            reveal_strlit("cpu->bc++; cpu->cycles += 8;");
        } else if op == 0x04 {
            reveal_strlit("cpu->b = cpu_inc8(cpu, cpu->b); cpu->cycles += 4;");
        } else if op == 0x05 {
            reveal_strlit("cpu->b = cpu_dec8(cpu, cpu->b); cpu->cycles += 4;");
        } else if op == 0x06 {
            reveal_strlit("cpu->b = 0x");
        } else if op == 0x07 {
            reveal_strlit("cpu_rlca(cpu); cpu->cycles += 4;");
        } else if op == 0x08 {
            reveal_strlit("write16(cpu, 0x");
        } else if op == 0x09 {
            reveal_strlit("cpu_add_hl(cpu, cpu->bc); cpu->cycles += 8;");
        } else if op == 0x0A {
            reveal_strlit("cpu->a = read8(cpu, cpu->bc); cpu->cycles += 8;");
        } else if op == 0x0B {
            reveal_strlit("cpu->bc--; cpu->cycles += 8;");
        } else if op == 0x0C {
            reveal_strlit("cpu->c = cpu_inc8(cpu, cpu->c); cpu->cycles += 4;");
        } else if op == 0x0D {
            reveal_strlit("cpu->c = cpu_dec8(cpu, cpu->c); cpu->cycles += 4;");
        } else if op == 0x0E {
            reveal_strlit("cpu->c = 0x");
        } else if op == 0x0F {
            reveal_strlit("cpu_rrca(cpu); cpu->cycles += 4;");
        } else if op == 0x10 {
            reveal_strlit("cpu->halted = true; cpu->cycles += 4; cpu->pc = 0x");
        } else if op == 0x11 {
            reveal_strlit("cpu->de = 0x");
        } else if op == 0x12 {
            reveal_strlit("write8(cpu, cpu->de, cpu->a); cpu->cycles += 8;");
        } else if op == 0x13 {
            reveal_strlit("cpu->de++; cpu->cycles += 8;");
        } else if op == 0x14 {
            reveal_strlit("cpu->d = cpu_inc8(cpu, cpu->d); cpu->cycles += 4;");
        } else if op == 0x15 {
            reveal_strlit("cpu->d = cpu_dec8(cpu, cpu->d); cpu->cycles += 4;");
        } else if op == 0x16 {
            reveal_strlit("cpu->d = 0x");
        } else if op == 0x17 {
            reveal_strlit("cpu_rla(cpu); cpu->cycles += 4;");
        } else if op == 0x18 {
            reveal_strlit("cpu->cycles += 12; ");
        } else if op == 0x19 {
            reveal_strlit("cpu_add_hl(cpu, cpu->de); cpu->cycles += 8;");
        } else if op == 0x1A {
            reveal_strlit("cpu->a = read8(cpu, cpu->de); cpu->cycles += 8;");
        } else if op == 0x1B {
            reveal_strlit("cpu->de--; cpu->cycles += 8;");
        } else if op == 0x1C {
            reveal_strlit("cpu->e = cpu_inc8(cpu, cpu->e); cpu->cycles += 4;");
        } else if op == 0x1D {
            reveal_strlit("cpu->e = cpu_dec8(cpu, cpu->e); cpu->cycles += 4;");
        } else if op == 0x1E {
            reveal_strlit("cpu->e = 0x");
        } else if op == 0x1F {
            reveal_strlit("cpu_rra(cpu); cpu->cycles += 4;");
        } else if op == 0x20 {
            reveal_strlit("if (!(cpu->f & FLAG_Z)) { cpu->cycles += 12; ");
        } else if op == 0x21 {
            reveal_strlit("cpu->hl = 0x");
        } else if op == 0x22 {
            reveal_strlit("write8(cpu, cpu->hl, cpu->a); cpu->hl++; cpu->cycles += 8;");
        } else if op == 0x23 {
            reveal_strlit("cpu->hl++; cpu->cycles += 8;");
        } else if op == 0x24 {
            reveal_strlit("cpu->h = cpu_inc8(cpu, cpu->h); cpu->cycles += 4;");
        } else if op == 0x25 {
            reveal_strlit("cpu->h = cpu_dec8(cpu, cpu->h); cpu->cycles += 4;");
        } else if op == 0x26 {
            reveal_strlit("cpu->h = 0x");
        } else if op == 0x27 {
            reveal_strlit("cpu_daa(cpu); cpu->cycles += 4;");
        } else if op == 0x28 {
            reveal_strlit("if (cpu->f & FLAG_Z) { cpu->cycles += 12; ");
        } else if op == 0x29 {
            reveal_strlit("cpu_add_hl(cpu, cpu->hl); cpu->cycles += 8;");
        } else if op == 0x2A {
            reveal_strlit("cpu->a = read8(cpu, cpu->hl); cpu->hl++; cpu->cycles += 8;");
        } else if op == 0x2B {
            reveal_strlit("cpu->hl--; cpu->cycles += 8;");
        } else if op == 0x2C {
            reveal_strlit("cpu->l = cpu_inc8(cpu, cpu->l); cpu->cycles += 4;");
        } else if op == 0x2D {
            reveal_strlit("cpu->l = cpu_dec8(cpu, cpu->l); cpu->cycles += 4;");
        } else if op == 0x2E {
            reveal_strlit("cpu->l = 0x");
        } else if op == 0x2F {
            reveal_strlit("cpu->a = ~cpu->a; cpu->f |= FLAG_N | FLAG_H; cpu->cycles += 4;");
        } else if op == 0x30 {
            reveal_strlit("if (!(cpu->f & FLAG_C)) { cpu->cycles += 12; ");
        } else if op == 0x31 {
            reveal_strlit("cpu->sp = 0x");
        } else if op == 0x32 {
            reveal_strlit("write8(cpu, cpu->hl, cpu->a); cpu->hl--; cpu->cycles += 8;");
        } else if op == 0x33 {
            reveal_strlit("cpu->sp++; cpu->cycles += 8;");
        } else if op == 0x34 {
            reveal_strlit("write8(cpu, cpu->hl, cpu_inc8(cpu, read8(cpu, cpu->hl))); cpu->cycles += 12;");
        } else if op == 0x35 {
            reveal_strlit("write8(cpu, cpu->hl, cpu_dec8(cpu, read8(cpu, cpu->hl))); cpu->cycles += 12;");
        } else if op == 0x36 {
            reveal_strlit("write8(cpu, cpu->hl, 0x");
        } else if op == 0x37 {
            reveal_strlit("cpu->f &= ~(FLAG_N | FLAG_H); cpu->f |= FLAG_C; cpu->cycles += 4;");
        } else if op == 0x38 {
            reveal_strlit("if (cpu->f & FLAG_C) { cpu->cycles += 12; ");
        } else if op == 0x39 {
            reveal_strlit("cpu_add_hl(cpu, cpu->sp); cpu->cycles += 8;");
        } else if op == 0x3A {
            reveal_strlit("cpu->a = read8(cpu, cpu->hl); cpu->hl--; cpu->cycles += 8;");
        } else if op == 0x3B {
            reveal_strlit("cpu->sp--; cpu->cycles += 8;");
        } else if op == 0x3C {
            reveal_strlit("cpu->a = cpu_inc8(cpu, cpu->a); cpu->cycles += 4;");
        } else if op == 0x3D {
            reveal_strlit("cpu->a = cpu_dec8(cpu, cpu->a); cpu->cycles += 4;");
        } else if op == 0x3E {
            reveal_strlit("cpu->a = 0x");
        } else if op == 0x3F {
            reveal_strlit("cpu->f &= ~FLAG_N; cpu->f ^= FLAG_C; cpu->f &= ~FLAG_H; cpu->cycles += 4;");
        } else if op == 0x76 {
            reveal_strlit("cpu->halted = true; cpu->cycles += 4; cpu->pc = 0x");
        } else if op == 0xC0 {
            reveal_strlit("if (!(cpu->f & FLAG_Z)) { cpu->cycles += 20; cpu_ret(cpu); return; } else { cpu->cycles += 8; }");
        } else if op == 0xC1 {
            reveal_strlit("cpu->bc = cpu_pop16(cpu); cpu->cycles += 12;");
        } else if op == 0xC2 {
            reveal_strlit("if (!(cpu->f & FLAG_Z)) { cpu->cycles += 12; ");
        } else if op == 0xC3 {
            reveal_strlit("cpu->cycles += 16; ");
        } else if op == 0xC4 {
            reveal_strlit("if (!(cpu->f & FLAG_Z)) { cpu->cycles += 24; cpu_call(cpu, 0x");
        } else if op == 0xC5 {
            reveal_strlit("cpu_push16(cpu, cpu->bc); cpu->cycles += 16;");
        } else if op == 0xC6 {
            reveal_strlit("cpu_add_a(cpu, 0x");
        } else if op == 0xC7 {
            reveal_strlit("cpu->cycles += 16; cpu_call(cpu, 0x0000, 0x");
        } else if op == 0xC8 {
            reveal_strlit("if (cpu->f & FLAG_Z) { cpu->cycles += 20; cpu_ret(cpu); return; } else { cpu->cycles += 8; }");
        } else if op == 0xC9 {
            reveal_strlit("cpu->cycles += 16; cpu_ret(cpu); return;");
        } else if op == 0xCA {
            reveal_strlit("if (cpu->f & FLAG_Z) { cpu->cycles += 12; ");
        } else if op == 0xCC {
            reveal_strlit("if (cpu->f & FLAG_Z) { cpu->cycles += 24; cpu_call(cpu, 0x");
        } else if op == 0xCD {
            reveal_strlit("cpu->cycles += 24; cpu_call(cpu, 0x");
        } else if op == 0xCE {
            reveal_strlit("cpu_adc_a(cpu, 0x");
        } else if op == 0xCF {
            reveal_strlit("cpu->cycles += 16; cpu_call(cpu, 0x0008, 0x");
        } else if op == 0xD0 {
            reveal_strlit("if (!(cpu->f & FLAG_C)) { cpu->cycles += 20; cpu_ret(cpu); return; } else { cpu->cycles += 8; }");
        } else if op == 0xD1 {
            reveal_strlit("cpu->de = cpu_pop16(cpu); cpu->cycles += 12;");
        } else if op == 0xD2 {
            reveal_strlit("if (!(cpu->f & FLAG_C)) { cpu->cycles += 12; ");
        } else if op == 0xD4 {
            reveal_strlit("if (!(cpu->f & FLAG_C)) { cpu->cycles += 24; cpu_call(cpu, 0x");
        } else if op == 0xD5 {
            reveal_strlit("cpu_push16(cpu, cpu->de); cpu->cycles += 16;");
        } else if op == 0xD6 {
            reveal_strlit("cpu_sub_a(cpu, 0x");
        } else if op == 0xD7 {
            reveal_strlit("cpu->cycles += 16; cpu_call(cpu, 0x0010, 0x");
        } else if op == 0xD8 {
            reveal_strlit("if (cpu->f & FLAG_C) { cpu->cycles += 20; cpu_ret(cpu); return; } else { cpu->cycles += 8; }");
        } else if op == 0xD9 {
            reveal_strlit("cpu->cycles += 16; cpu->ime = true; cpu_ret(cpu); return;");
        } else if op == 0xDA {
            reveal_strlit("if (cpu->f & FLAG_C) { cpu->cycles += 12; ");
        } else if op == 0xDC {
            reveal_strlit("if (cpu->f & FLAG_C) { cpu->cycles += 24; cpu_call(cpu, 0x");
        } else if op == 0xDE {
            reveal_strlit("cpu_sbc_a(cpu, 0x");
        } else if op == 0xDF {
            reveal_strlit("cpu->cycles += 16; cpu_call(cpu, 0x0018, 0x");
        } else if op == 0xE0 {
            reveal_strlit("write8(cpu, 0xFF00 + 0x");
        } else if op == 0xE1 {
            reveal_strlit("cpu->hl = cpu_pop16(cpu); cpu->cycles += 12;");
        } else if op == 0xE2 {
            reveal_strlit("write8(cpu, 0xFF00 + cpu->c, cpu->a); cpu->cycles += 8;");
        } else if op == 0xE5 {
            reveal_strlit("cpu_push16(cpu, cpu->hl); cpu->cycles += 16;");
        } else if op == 0xE6 {
            reveal_strlit("cpu_and_a(cpu, 0x");
        } else if op == 0xE7 {
            reveal_strlit("cpu->cycles += 16; cpu_call(cpu, 0x0020, 0x");
        } else if op == 0xE8 {
            reveal_strlit("cpu->sp = cpu_add_sp(cpu, ");
        } else if op == 0xE9 {
            reveal_strlit("cpu->cycles += 4; goto_pc(cpu, cpu->hl); return;");
        } else if op == 0xEA {
            reveal_strlit("write8(cpu, 0x");
        } else if op == 0xEE {
            reveal_strlit("cpu_xor_a(cpu, 0x");
        } else if op == 0xEF {
            reveal_strlit("cpu->cycles += 16; cpu_call(cpu, 0x0028, 0x");
        } else if op == 0xF0 {
            reveal_strlit("cpu->a = read8(cpu, 0xFF00 + 0x");
        } else if op == 0xF1 {
            reveal_strlit("cpu->af = cpu_pop16(cpu) & 0xFFF0; cpu->cycles += 12;");
        } else if op == 0xF2 {
            reveal_strlit("cpu->a = read8(cpu, 0xFF00 + cpu->c); cpu->cycles += 8;");
        } else if op == 0xF3 {
            reveal_strlit("cpu->ime = false; cpu->cycles += 4;");
        } else if op == 0xF5 {
            reveal_strlit("cpu_push16(cpu, cpu->af); cpu->cycles += 16;");
        } else if op == 0xF6 {
            reveal_strlit("cpu_or_a(cpu, 0x");
        } else if op == 0xF7 {
            reveal_strlit("cpu->cycles += 16; cpu_call(cpu, 0x0030, 0x");
        } else if op == 0xF8 {
            reveal_strlit("cpu->hl = cpu_add_sp(cpu, ");
        } else if op == 0xF9 {
            reveal_strlit("cpu->sp = cpu->hl; cpu->cycles += 8;");
        } else if op == 0xFA {
            reveal_strlit("cpu->a = read8(cpu, 0x");
        } else if op == 0xFB {
            reveal_strlit("cpu->ime = true; cpu->cycles += 4;");
        } else if op == 0xFE {
            reveal_strlit("cpu_cp_a(cpu, 0x");
        } else if op == 0xFF {
            reveal_strlit("cpu->cycles += 16; cpu_call(cpu, 0x0038, 0x");
        } else {
        }
    }
    assert(s.len() > 0 && s[0] != '/');
    if s.len() >= 23 {
        assert(s.take(23)[0] == s[0]);
    }
}

/// The label written before instruction `inst` at `a`, when the instruction is a jump target
/// or does not follow on from the instruction before it (which ended at `expected`).
pub open spec fn label_part(inst: DecodedInstruction, a: u32, targets: Set<u32>, bank: u16, expected: u16) -> Seq<char> {
    if targets.contains(a) || inst.pc != expected {
        label_line(bank, inst.pc)
    } else {
        Seq::empty()
    }
}

/// Each C function of game.c is its header, then, for each of its instructions in order, one
/// optional label and one statement line (with the synchronisation exactly when the
/// instruction changes control flow or writes to an absolute or 0xFFxx address), then the
/// line that sets the program counter after the last one.
pub proof fn lemma_game_c_lines(
    instrs: Map<u32, DecodedInstruction>,
    targets: Set<u32>,
    f: u32,
    g: Seq<u32>,
)
    ensures
        function_text(instrs, targets, f, g) == "void "@ + func_name(f) + "(CPUState* cpu) {\n"@
            + instr_lines(instrs, targets, func_bank(f), g, g, func_pc(f)) + "    cpu->pc = 0x"@
            + hex_fixed(end_of(instrs, g, func_pc(f)) as nat, 4) + ";\n}\n\n"@,
        instr_lines(instrs, targets, func_bank(f), g, g.take(0), func_pc(f)) == Seq::<char>::empty(),
        instr_lines(instrs, targets, func_bank(f), g, g.take(g.len() as int), func_pc(f))
            == instr_lines(instrs, targets, func_bank(f), g, g, func_pc(f)),
        forall|n: int|
            0 <= n < g.len() ==> #[trigger] instr_lines(instrs, targets, func_bank(f), g, g.take(n + 1), func_pc(f))
                == instr_lines(instrs, targets, func_bank(f), g, g.take(n), func_pc(f)) + label_part(
                instrs[g[n]],
                g[n],
                targets,
                func_bank(f),
                end_of(instrs, g.take(n), func_pc(f)),
            ) + synced_statement(instrs[g[n]], func_bank(f), g),
        forall|a: u32|
            #![trigger synced_statement(instrs[a], func_bank(f), g)]
            needs_sync(instrs[a]) ==> synced_statement(instrs[a], func_bank(f), g) == "    cpu->pc = 0x"@
                + hex_fixed(instrs[a].pc as nat, 4) + ";\n    sync_hardware(cpu);\n    if (cpu->pc != 0x"@
                + hex_fixed(instrs[a].pc as nat, 4) + ") return;\n"@ + statement_line(instrs[a], func_bank(f), g),
        forall|a: u32|
            #![trigger synced_statement(instrs[a], func_bank(f), g)]
            !needs_sync(instrs[a]) ==> synced_statement(instrs[a], func_bank(f), g) == statement_line(
                instrs[a],
                func_bank(f),
                g,
            ),
{
    let bk = func_bank(f);
    let st = func_pc(f);
    assert(g.take(g.len() as int) =~= g);
    assert(g.take(0) =~= Seq::<u32>::empty());
    assert forall|n: int|
        0 <= n < g.len() implies #[trigger] instr_lines(instrs, targets, bk, g, g.take(n + 1), st)
            == instr_lines(instrs, targets, bk, g, g.take(n), st) + label_part(
            instrs[g[n]],
            g[n],
            targets,
            bk,
            end_of(instrs, g.take(n), st),
        ) + synced_statement(instrs[g[n]], bk, g) by {
        let t = g.take(n + 1);
        assert(t.drop_last() =~= g.take(n));
        assert(t.last() == g[n]);
        let inst = instrs[g[n]];
        assert(instr_text(inst, g[n], targets, bk, g, end_of(instrs, g.take(n), st)) =~= label_part(
            inst,
            g[n],
            targets,
            bk,
            end_of(instrs, g.take(n), st),
        ) + synced_statement(inst, bk, g));
    }
    assert forall|a: u32|
        #![trigger synced_statement(instrs[a], bk, g)]
        !needs_sync(instrs[a]) implies synced_statement(instrs[a], bk, g) == statement_line(instrs[a], bk, g) by {
        assert(synced_statement(instrs[a], bk, g) =~= statement_line(instrs[a], bk, g));
    }
    assert forall|a: u32|
        #![trigger synced_statement(instrs[a], bk, g)]
        needs_sync(instrs[a]) implies synced_statement(instrs[a], bk, g) == "    cpu->pc = 0x"@ + hex_fixed(
            instrs[a].pc as nat,
            4,
        ) + ";\n    sync_hardware(cpu);\n    if (cpu->pc != 0x"@ + hex_fixed(instrs[a].pc as nat, 4)
            + ") return;\n"@ + statement_line(instrs[a], bk, g) by {
        assert(synced_statement(instrs[a], bk, g) =~= "    cpu->pc = 0x"@ + hex_fixed(instrs[a].pc as nat, 4)
            + ";\n    sync_hardware(cpu);\n    if (cpu->pc != 0x"@ + hex_fixed(instrs[a].pc as nat, 4)
            + ") return;\n"@ + statement_line(instrs[a], bk, g));
    }
}

/// The line holding the C statement of `inst` and, as a comment, its mnemonic.
pub open spec fn statement_line(inst: DecodedInstruction, bank: u16, group: Seq<u32>) -> Seq<char> {
    "    "@ + c_text(inst.bytes@, inst.pc, bank, group) + " // "@ + inst.mnemonic@ + "\n"@
}

/// rom_data.c is the array of the image's bytes, one entry per byte in order (see
/// `lemma_rom_bytes_listed` for how each entry reads back), then the line giving the
/// image's length and the other facts.
pub proof fn lemma_rom_data_layout(data: Seq<u8>, title: Seq<char>, is_gbc: bool, cartridge_type: u8, ram_size: nat)
    ensures
        rom_data_c_text(data, title, is_gbc, cartridge_type, ram_size)
            == "#include <stdint.h>\n#include <stddef.h>\n\nconst uint8_t g_rom_data[] = {\n"@ + byte_entries(
            data,
        ) + "\n};\n"@ + "const size_t g_rom_size = "@ + dec(data.len()) + ";\n"@ + rom_facts_rest(
            title,
            is_gbc,
            cartridge_type,
            ram_size,
        ),
        byte_entries(data.take(0)) == Seq::<char>::empty(),
        byte_entries(data.take(data.len() as int)) == byte_entries(data),
        forall|i: int|
            0 <= i < data.len() ==> #[trigger] byte_entries(data.take(i + 1)) == byte_entries(data.take(i))
                + byte_entry(i, data[i]),
{
    assert(data.take(0) =~= Seq::<u8>::empty());
    assert(data.take(data.len() as int) =~= data);
    assert forall|i: int|
        0 <= i < data.len() implies #[trigger] byte_entries(data.take(i + 1)) == byte_entries(data.take(i))
            + byte_entry(i, data[i]) by {
        lemma_rom_bytes_listed(data, i);
    }
    assert(rom_data_c_text(data, title, is_gbc, cartridge_type, ram_size)
        =~= "#include <stdint.h>\n#include <stddef.h>\n\nconst uint8_t g_rom_data[] = {\n"@ + byte_entries(data)
        + "\n};\n"@ + "const size_t g_rom_size = "@ + dec(data.len()) + ";\n"@ + rom_facts_rest(
        title,
        is_gbc,
        cartridge_type,
        ram_size,
    ));
}

/// The lines of rom_data.c after the image's length.
pub open spec fn rom_facts_rest(title: Seq<char>, is_gbc: bool, cartridge_type: u8, ram_size: nat) -> Seq<char> {
    "const char* g_rom_title = \""@ + title + "\";\n"@ + "const uint8_t g_rom_is_gbc = "@ + (if is_gbc {
        "1"@
    } else {
        "0"@
    }) + ";\n"@ + "const uint8_t g_rom_cartridge_type = "@ + dec(cartridge_type as nat) + ";\n"@
        + "const size_t g_rom_ram_size = "@ + dec(ram_size) + ";\n"@
}

/// dispatcher.c is its header, then exactly one `case` per function, in increasing order of
/// address and each for a different address, then the default case: no other case is
/// written.
pub proof fn lemma_dispatcher_layout(funcs: Seq<u32>)
    requires
        strictly_increasing(funcs),
    ensures
        dispatcher_c_text(funcs) == "#include \"game.h\"\n#include \"runtime.h\"\n\nvoid dispatch(CPUState* cpu, uint16_t bank, uint16_t pc) {\n    uint32_t abs_addr = get_abs_addr(bank, pc);\n    switch (abs_addr) {\n"@
            + case_lines(funcs) + "        default:\n            break;\n    }\n}\n"@,
        case_lines(funcs.take(0)) == Seq::<char>::empty(),
        case_lines(funcs.take(funcs.len() as int)) == case_lines(funcs),
        forall|n: int|
            0 <= n < funcs.len() ==> #[trigger] case_lines(funcs.take(n + 1)) == case_lines(funcs.take(n))
                + case_line(funcs[n]),
        forall|i: int, j: int| 0 <= i < j < funcs.len() ==> funcs[i] != funcs[j],
{
    assert(funcs.take(0) =~= Seq::<u32>::empty());
    assert(funcs.take(funcs.len() as int) =~= funcs);
    assert forall|n: int|
        0 <= n < funcs.len() implies #[trigger] case_lines(funcs.take(n + 1)) == case_lines(funcs.take(n))
            + case_line(funcs[n]) by {
        let t = funcs.take(n + 1);
        assert(t.drop_last() =~= funcs.take(n));
        assert(case_lines(t) =~= case_lines(funcs.take(n)) + case_line(funcs[n]));
    }
}

proof fn lemma_hex4_injective(p1: u16, p2: u16)
    requires
        hex_fixed(p1 as nat, 4) == hex_fixed(p2 as nat, 4),
    ensures
        p1 == p2,
{
    reveal_with_fuel(hex_fixed, 5);
    let h1 = hex_fixed(p1 as nat, 4);
    let h2 = hex_fixed(p2 as nat, 4);
    let v1 = p1 as nat;
    let v2 = p2 as nat;
    assert(h1[3] == hex_digit(v1 % 16) && h2[3] == hex_digit(v2 % 16));
    assert(h1[2] == hex_digit((v1 / 16) % 16) && h2[2] == hex_digit((v2 / 16) % 16));
    assert(h1[1] == hex_digit((v1 / 16 / 16) % 16) && h2[1] == hex_digit((v2 / 16 / 16) % 16));
    assert(h1[0] == hex_digit((v1 / 16 / 16 / 16) % 16) && h2[0] == hex_digit((v2 / 16 / 16 / 16) % 16));
    lemma_hex_digit_value(v1 % 16);
    lemma_hex_digit_value(v2 % 16);
    lemma_hex_digit_value((v1 / 16) % 16);
    lemma_hex_digit_value((v2 / 16) % 16);
    lemma_hex_digit_value((v1 / 16 / 16) % 16);
    lemma_hex_digit_value((v2 / 16 / 16) % 16);
    lemma_hex_digit_value((v1 / 16 / 16 / 16) % 16);
    lemma_hex_digit_value((v2 / 16 / 16 / 16) % 16);
}

/// No two instructions of a C function that stays within one 16 KiB bank are at the same
/// address, so no two of them write the same label: each label line of a function is
/// written at most once (see `lemma_game_c_lines` for the one optional label per
/// instruction).
pub proof fn lemma_labels_distinct(instrs: Map<u32, DecodedInstruction>, f: u32, g: Seq<u32>, k1: u32, k2: u32)
    requires
        forall|k: u32|
            #[trigger] g.contains(k) ==> instrs.dom().contains(k) && k / 16384 == f / 16384 && k == abs_addr_spec(
                instrs[k].bank,
                instrs[k].pc,
            ) && instrs[k].pc < 0x8000 && (instrs[k].pc >= 0x4000 ==> instrs[k].bank >= 1),
        g.contains(k1),
        g.contains(k2),
        k1 != k2,
    ensures
        instrs[k1].pc != instrs[k2].pc,
        label_line(func_bank(f), instrs[k1].pc) != label_line(func_bank(f), instrs[k2].pc),
{
    let i1 = instrs[k1];
    let i2 = instrs[k2];
    assert(g.contains(k1) && g.contains(k2));
    if i1.pc == i2.pc && i1.pc >= 0x4000 {
        assert(k1 / 16384 == i1.bank as int);
        assert(k2 / 16384 == i2.bank as int);
    }
    let bk = func_bank(f);
    let l1 = label_line(bk, i1.pc);
    let l2 = label_line(bk, i2.pc);
    if l1 == l2 {
        let pre = "loc_"@ + hex_min(bk as nat, 2) + "_"@;
        reveal_strlit(":\n");
        lemma_hex_fixed_len(i1.pc as nat, 4);
        lemma_hex_fixed_len(i2.pc as nat, 4);
        assert(l1 =~= pre + hex_fixed(i1.pc as nat, 4) + ":\n"@);
        assert(l2 =~= pre + hex_fixed(i2.pc as nat, 4) + ":\n"@);
        assert(l1.subrange(pre.len() as int, pre.len() + 4int) =~= hex_fixed(i1.pc as nat, 4));
        assert(l2.subrange(pre.len() as int, pre.len() + 4int) =~= hex_fixed(i2.pc as nat, 4));
        lemma_hex4_injective(i1.pc, i2.pc);
    }
}

proof fn lemma_hex_fixed_len(v: nat, w: nat)
    ensures
        hex_fixed(v, w).len() == w,
    decreases w,
{
    if w > 0 {
        lemma_hex_fixed_len(v / 16, (w - 1) as nat);
    }
}

} // verus!
