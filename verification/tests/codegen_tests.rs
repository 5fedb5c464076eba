use std::collections::{BTreeMap, BTreeSet};

use recompiler::analysis::{analyze_rom, group_functions, DisasmResult};
use recompiler::codegen::{
    generate_c_project, is_well_formed, translate_cb_to_c, translate_to_c, write_dispatcher_c, write_game_h,
    write_rom_data_c,
};
use recompiler::decode::{DecodedInstruction, FlowControl};
use recompiler::rom::RomInfo;

fn inst(pc: u16, bank: u16, bytes: &[u8], mnemonic: &str, flow: FlowControl) -> DecodedInstruction {
    DecodedInstruction { pc, bank, bytes: bytes.to_vec(), mnemonic: String::from(mnemonic), flow }
}

fn c(bytes: &[u8], pc: u16) -> String {
    translate_to_c(&inst(pc, 0, bytes, "", FlowControl::Normal), 0, &[])
}

fn demo_rom(is_gbc: bool) -> RomInfo {
    RomInfo {
        title: String::from("DEMO"),
        is_gbc,
        cartridge_type: 0x1B,
        rom_size: 32768,
        ram_size: 8192,
        rom_data: (0u8..18).collect(),
    }
}

fn demo_disasm() -> DisasmResult {
    let mut instructions = BTreeMap::new();
    instructions.insert(0x100, inst(0x100, 0, &[0x00], "NOP", FlowControl::Normal));
    instructions.insert(0x101, inst(0x101, 0, &[0xC3, 0x50, 0x01], "JP 0x0150", FlowControl::Jump(0x150)));
    instructions.insert(0x150, inst(0x150, 0, &[0x3E, 0x05], "LD A, 0x05", FlowControl::Normal));
    instructions.insert(0x152, inst(0x152, 0, &[0xE0, 0x40], "LDH (0xFF00 + 0x40), A", FlowControl::Normal));
    instructions.insert(0x154, inst(0x154, 0, &[0xC9], "RET", FlowControl::Return));
    instructions.insert(0x4000, inst(0x4000, 1, &[0x18, 0xFE], "JR 0x4000", FlowControl::Jump(0x4000)));
    let function_entries: BTreeSet<u32> = [0x100u32, 0x4000].into_iter().collect();
    let jump_targets: BTreeSet<u32> = [0x150u32, 0x4000].into_iter().collect();
    DisasmResult { instructions, function_entries, jump_targets }
}

#[test]
fn translates_plain_instructions() {
    assert_eq!(c(&[0x00], 0x100), "cpu->cycles += 4;");
    assert_eq!(c(&[0x01, 0x34, 0x12], 0x100), "cpu->bc = 0x1234; cpu->cycles += 12;");
    assert_eq!(c(&[0x3E, 0x05], 0x100), "cpu->a = 0x05; cpu->cycles += 8;");
    assert_eq!(c(&[0x41], 0x100), "cpu->b = cpu->c; cpu->cycles += 4;");
    assert_eq!(c(&[0x70], 0x100), "write8(cpu, cpu->hl, cpu->b); cpu->cycles += 8;");
    assert_eq!(c(&[0x7E], 0x100), "cpu->a = read8(cpu, cpu->hl); cpu->cycles += 8;");
    assert_eq!(c(&[0x86], 0x100), "cpu_add_a(cpu, read8(cpu, cpu->hl)); cpu->cycles += 8;");
    assert_eq!(c(&[0xAF], 0x100), "cpu_xor_a(cpu, cpu->a); cpu->cycles += 4;");
    assert_eq!(c(&[0xE0, 0x40], 0x100), "write8(cpu, 0xFF00 + 0x40, cpu->a); cpu->cycles += 12;");
    assert_eq!(c(&[0xE8, 0xFE], 0x100), "cpu->sp = cpu_add_sp(cpu, -2); cpu->cycles += 16;");
    assert_eq!(c(&[0xF8, 0xFB], 0x100), "cpu->hl = cpu_add_sp(cpu, -5); cpu->cycles += 12;");
    assert_eq!(c(&[0xD3], 0x100), "// Unimplemented opcode 0xD3");
}

#[test]
fn translates_control_flow() {
    assert_eq!(c(&[0x10, 0x00], 0x100), "cpu->halted = true; cpu->cycles += 4; cpu->pc = 0x0102; return;");
    assert_eq!(c(&[0x76], 0x200), "cpu->halted = true; cpu->cycles += 4; cpu->pc = 0x0201; return;");
    assert_eq!(c(&[0xC9], 0x100), "cpu->cycles += 16; cpu_ret(cpu); return;");
    assert_eq!(c(&[0xCD, 0x00, 0x02], 0x150), "cpu->cycles += 24; cpu_call(cpu, 0x0200, 0x0153); return;");
    assert_eq!(c(&[0xFF], 0x100), "cpu->cycles += 16; cpu_call(cpu, 0x0038, 0x0101); return;");
    assert_eq!(c(&[0xE9], 0x100), "cpu->cycles += 4; goto_pc(cpu, cpu->hl); return;");
    assert_eq!(
        c(&[0x20, 0x05], 0x100),
        "if (!(cpu->f & FLAG_Z)) { cpu->cycles += 12; goto_pc(cpu, 0x0107); return; } else { cpu->cycles += 8; }"
    );
    assert_eq!(
        c(&[0xC2, 0x34, 0x12], 0x100),
        "if (!(cpu->f & FLAG_Z)) { cpu->cycles += 12; goto_pc(cpu, 0x1234); return; } else { cpu->cycles += 12; }"
    );
}

#[test]
fn local_targets_become_gotos() {
    let jr = inst(0x153, 0, &[0x18, 0xFE], "JR 0x0153", FlowControl::Jump(0x153));
    assert_eq!(translate_to_c(&jr, 0, &[0x150, 0x153]), "cpu->cycles += 12; goto loc_00_0153;");
    assert_eq!(translate_to_c(&jr, 0, &[0x150]), "cpu->cycles += 12; goto_pc(cpu, 0x0153); return;");
    let jp = inst(0x4100, 1, &[0xC3, 0x00, 0x40], "JP 0x4000", FlowControl::Jump(0x4000));
    assert_eq!(translate_to_c(&jp, 1, &[0x4000, 0x4100]), "cpu->cycles += 16; goto loc_01_4000;");
    assert_eq!(translate_to_c(&jp, 2, &[0x4000, 0x4100]), "cpu->cycles += 16; goto_pc(cpu, 0x4000); return;");
    let jrc = inst(0x200, 0, &[0x38, 0x02], "JR C, 0x0204", FlowControl::Branch(0x204));
    assert_eq!(
        translate_to_c(&jrc, 0, &[0x200, 0x204]),
        "if (cpu->f & FLAG_C) { cpu->cycles += 12; goto loc_00_0204; } else { cpu->cycles += 8; }"
    );
}

#[test]
fn translates_cb_instructions() {
    assert_eq!(translate_cb_to_c(0x00), "cpu->b = cpu_rlc(cpu, cpu->b); cpu->cycles += 8;");
    assert_eq!(translate_cb_to_c(0x06), "write8(cpu, cpu->hl, cpu_rlc(cpu, read8(cpu, cpu->hl))); cpu->cycles += 16;");
    assert_eq!(translate_cb_to_c(0x37), "cpu->a = cpu_swap(cpu, cpu->a); cpu->cycles += 8;");
    assert_eq!(translate_cb_to_c(0x7C), "cpu_bit(cpu, 7, cpu->h); cpu->cycles += 8;");
    assert_eq!(translate_cb_to_c(0x46), "cpu_bit(cpu, 0, read8(cpu, cpu->hl)); cpu->cycles += 12;");
    assert_eq!(translate_cb_to_c(0x87), "cpu->a = (cpu->a & ~(1 << 0)); cpu->cycles += 8;");
    assert_eq!(translate_cb_to_c(0xFE), "write8(cpu, cpu->hl, (read8(cpu, cpu->hl) | (1 << 7))); cpu->cycles += 16;");
    assert_eq!(c(&[0xCB, 0x7C], 0x100), "cpu_bit(cpu, 7, cpu->h); cpu->cycles += 8;");
}

#[test]
fn writes_the_header() {
    let d = demo_disasm();
    let g = group_functions(&d.instructions, &d.function_entries);
    let mut w = String::new();
    write_game_h(&mut w, &demo_rom(false), &g);
    assert_eq!(
        w,
        "#ifndef GAME_H\n#define GAME_H\n#include \"runtime.h\"\n\n// Game Name: DEMO\n// Mode: DMG\n\n\
         // --- Subroutine Declarations ---\nvoid fn_00_0100(CPUState* cpu);\nvoid fn_01_4000(CPUState* cpu);\n\n\
         #endif // GAME_H\n"
    );
    let mut w = String::from("// prefix\n");
    write_game_h(&mut w, &demo_rom(true), &g);
    assert!(w.starts_with("// prefix\n#ifndef GAME_H\n"));
    assert!(w.contains("// Mode: GBC\n"));
}

#[test]
fn writes_the_dispatcher() {
    let d = demo_disasm();
    let g = group_functions(&d.instructions, &d.function_entries);
    let mut w = String::new();
    write_dispatcher_c(&mut w, &g);
    assert_eq!(
        w,
        "#include \"game.h\"\n#include \"runtime.h\"\n\n\
         void dispatch(CPUState* cpu, uint16_t bank, uint16_t pc) {\n\
         \x20   uint32_t abs_addr = get_abs_addr(bank, pc);\n\
         \x20   switch (abs_addr) {\n\
         \x20       case 0x00000100: fn_00_0100(cpu); break;\n\
         \x20       case 0x00004000: fn_01_4000(cpu); break;\n\
         \x20       default:\n\
         \x20           break;\n\
         \x20   }\n\
         }\n"
    );
}

#[test]
fn writes_the_rom_data() {
    let mut w = String::new();
    write_rom_data_c(&mut w, &demo_rom(false));
    assert_eq!(
        w,
        "#include <stdint.h>\n#include <stddef.h>\n\nconst uint8_t g_rom_data[] = {\n\
         \x20   0x00, 0x01, 0x02, 0x03, 0x04, 0x05, 0x06, 0x07, 0x08, 0x09, 0x0A, 0x0B, 0x0C, 0x0D, 0x0E, 0x0F, \n\
         \x20   0x10, 0x11, \n};\n\
         const size_t g_rom_size = 18;\n\
         const char* g_rom_title = \"DEMO\";\n\
         const uint8_t g_rom_is_gbc = 0;\n\
         const uint8_t g_rom_cartridge_type = 27;\n\
         const size_t g_rom_ram_size = 8192;\n"
    );
    let mut rom = demo_rom(true);
    rom.rom_data.truncate(16);
    let mut w = String::new();
    write_rom_data_c(&mut w, &rom);
    assert!(w.contains("0x0F, \n\n};\nconst size_t g_rom_size = 16;\n"));
    assert!(w.contains("const uint8_t g_rom_is_gbc = 1;\n"));
}

#[test]
fn generates_the_four_sources() {
    let p = generate_c_project(&demo_rom(false), &demo_disasm());
    assert_eq!(
        p.game_c,
        "#include \"game.h\"\n#include \"runtime.h\"\n\n\
         void fn_00_0100(CPUState* cpu) {\n\
         \x20   cpu->cycles += 4; // NOP\n\
         \x20   cpu->pc = 0x0101;\n\
         \x20   sync_hardware(cpu);\n\
         \x20   if (cpu->pc != 0x0101) return;\n\
         \x20   cpu->cycles += 16; goto loc_00_0150; // JP 0x0150\n\
         loc_00_0150:\n\
         \x20   cpu->a = 0x05; cpu->cycles += 8; // LD A, 0x05\n\
         \x20   cpu->pc = 0x0152;\n\
         \x20   sync_hardware(cpu);\n\
         \x20   if (cpu->pc != 0x0152) return;\n\
         \x20   write8(cpu, 0xFF00 + 0x40, cpu->a); cpu->cycles += 12; // LDH (0xFF00 + 0x40), A\n\
         \x20   cpu->pc = 0x0154;\n\
         \x20   sync_hardware(cpu);\n\
         \x20   if (cpu->pc != 0x0154) return;\n\
         \x20   cpu->cycles += 16; cpu_ret(cpu); return; // RET\n\
         \x20   cpu->pc = 0x0155;\n\
         }\n\n\
         void fn_01_4000(CPUState* cpu) {\n\
         loc_01_4000:\n\
         \x20   cpu->pc = 0x4000;\n\
         \x20   sync_hardware(cpu);\n\
         \x20   if (cpu->pc != 0x4000) return;\n\
         \x20   cpu->cycles += 12; goto loc_01_4000; // JR 0x4000\n\
         \x20   cpu->pc = 0x4002;\n\
         }\n\n"
    );
    let mut h = String::new();
    let d = demo_disasm();
    write_game_h(&mut h, &demo_rom(false), &group_functions(&d.instructions, &d.function_entries));
    assert_eq!(p.game_h, h);
    assert!(p.dispatcher_c.contains("case 0x00004000: fn_01_4000(cpu); break;\n"));
    assert!(p.rom_data_c.ends_with("const size_t g_rom_ram_size = 8192;\n"));
}

#[test]
fn code_before_the_first_entry_belongs_to_the_entry_point_function() {
    let mut instructions = BTreeMap::new();
    instructions.insert(0x10, inst(0x10, 0, &[0x00], "NOP", FlowControl::Normal));
    instructions.insert(0x20, inst(0x20, 0, &[0x00], "NOP", FlowControl::Normal));
    instructions.insert(0x150, inst(0x150, 0, &[0xC9], "RET", FlowControl::Return));
    let entries: BTreeSet<u32> = [0x20u32].into_iter().collect();
    let g = group_functions(&instructions, &entries);
    assert_eq!(g.len(), 2);
    assert_eq!(g[&0x100], vec![0x10]);
    assert_eq!(g[&0x20], vec![0x20, 0x150]);
}

#[test]
fn explored_instructions_are_well_formed() {
    let mut data = vec![0u8; 0x8000];
    data[0x100..0x103].copy_from_slice(&[0xC3, 0x50, 0x01]);
    data[0x150..0x155].copy_from_slice(&[0xCD, 0x00, 0x02, 0x18, 0xFE]);
    data[0x200..0x203].copy_from_slice(&[0xCB, 0x7C, 0xC9]);
    let rom = RomInfo { title: String::new(), is_gbc: false, cartridge_type: 0, rom_size: 0x8000, ram_size: 0, rom_data: data };
    let d = analyze_rom(&rom);
    assert!(is_well_formed(&d));
    let p = generate_c_project(&rom, &d);
    assert!(p.game_c.contains("    cpu_bit(cpu, 7, cpu->h); cpu->cycles += 8; // BIT 7, H\n"));
    assert!(p.dispatcher_c.contains("case 0x00000200: fn_00_0200(cpu); break;\n"));

    let mut bad = demo_disasm();
    bad.instructions.insert(0x300, inst(0x300, 0, &[0xC3], "JP", FlowControl::Normal));
    assert!(!is_well_formed(&bad));
    let mut empty = demo_disasm();
    empty.instructions.insert(0x300, inst(0x300, 0, &[], "", FlowControl::Normal));
    assert!(!is_well_formed(&empty));
}

#[test]
fn cb_rotates_and_shifts_call_the_helper_their_mnemonic_names() {
    for op in 0u8..0x40 {
        let m = recompiler::decode::decode_cb_instruction(op);
        let (name, reg) = m.split_once(' ').unwrap();
        let f = name.to_lowercase();
        let expected = if reg == "(HL)" {
            format!("write8(cpu, cpu->hl, cpu_{}(cpu, read8(cpu, cpu->hl))); cpu->cycles += 16;", f)
        } else {
            let r = reg.to_lowercase();
            format!("cpu->{} = cpu_{}(cpu, cpu->{}); cpu->cycles += 8;", r, f, r)
        };
        assert_eq!(translate_cb_to_c(op), expected);
    }
}

#[test]
fn every_defined_opcode_is_translated() {
    for op in 0u16..=0xFF {
        let op = op as u8;
        let data = [op, 0x34, 0x12];
        if let Some(i) = recompiler::decode::decode_instruction(&data, 0x0200, 0) {
            assert!(!translate_to_c(&i, 0, &[]).starts_with("// Unimplemented opcode"), "opcode {:02X}", op);
        }
    }
    assert_eq!(c(&[0xDD], 0x100), "// Unimplemented opcode 0xDD");
}

#[test]
fn hand_overs_name_target_and_return_address() {
    assert!(c(&[0xC4, 0x00, 0x40], 0x0200).contains("cpu_call(cpu, 0x4000, 0x0203); return;"));
    assert!(c(&[0xEF], 0x0200).contains("cpu_call(cpu, 0x0028, 0x0201); return;"));
    assert!(c(&[0xD9], 0x0200).contains("cpu_ret(cpu); return;"));
    assert!(c(&[0xE9], 0x0200).contains("goto_pc(cpu, cpu->hl); return;"));
    assert!(c(&[0x76], 0x0200).contains("cpu->halted = true; cpu->cycles += 4; cpu->pc = 0x0201; return;"));
}

#[test]
fn generated_sources_read_back() {
    let mut data = vec![0u8; 0x8000];
    data[0x100..0x103].copy_from_slice(&[0xC3, 0x50, 0x01]);
    data[0x150..0x157].copy_from_slice(&[0xCD, 0x00, 0x02, 0x20, 0xFE, 0x18, 0xF9]);
    data[0x200..0x203].copy_from_slice(&[0xCB, 0x7C, 0xC9]);
    let rom = RomInfo { title: String::from("T"), is_gbc: false, cartridge_type: 0, rom_size: 0x8000, ram_size: 0, rom_data: data.clone() };
    let d = analyze_rom(&rom);
    let p = generate_c_project(&rom, &d);
    // dispatcher: exactly one case per function
    let groups = group_functions(&d.instructions, &d.function_entries);
    assert_eq!(p.dispatcher_c.matches("        case 0x").count(), groups.len());
    // rom_data.c: the bytes read back in full, with their count
    let start = p.rom_data_c.find("g_rom_data[] = {\n").unwrap() + "g_rom_data[] = {\n".len();
    let end = p.rom_data_c.find("\n};\n").unwrap();
    let bytes: Vec<u8> = p.rom_data_c[start..end]
        .split(", ")
        .map(|t| t.trim())
        .filter(|t| !t.is_empty())
        .map(|t| u8::from_str_radix(t.trim_start_matches("0x"), 16).unwrap())
        .collect();
    assert_eq!(bytes, data);
    assert!(p.rom_data_c.contains("const size_t g_rom_size = 32768;\n"));
    // game.c: every label is written once
    for line in p.game_c.lines().filter(|l| l.starts_with("loc_")) {
        assert_eq!(p.game_c.matches(&format!("\n{}\n", line)).count(), 1, "{}", line);
    }
    assert!(p.game_c.contains("goto loc_00_0153;"));
}
