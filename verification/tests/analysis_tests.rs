use recompiler::analysis::{analyze_rom, get_abs_addr, group_functions, DisasmResult};
use recompiler::decode::FlowControl;
use recompiler::rom::RomInfo;

fn rom_with(size: usize, code: &[(usize, &[u8])]) -> RomInfo {
    let mut data = vec![0u8; size];
    for &(at, bytes) in code {
        data[at..at + bytes.len()].copy_from_slice(bytes);
    }
    RomInfo {
        title: String::from("TEST"),
        is_gbc: false,
        cartridge_type: 0,
        rom_size: size,
        ram_size: 0,
        rom_data: data,
    }
}

fn set(r: &DisasmResult) -> (Vec<u32>, Vec<u32>, Vec<u32>) {
    (
        r.instructions.keys().copied().collect(),
        r.function_entries.iter().copied().collect(),
        r.jump_targets.iter().copied().collect(),
    )
}

#[test]
fn absolute_addresses_follow_the_bank_layout() {
    assert_eq!(get_abs_addr(0, 0x0150), 0x0150);
    assert_eq!(get_abs_addr(7, 0x3FFF), 0x3FFF);
    assert_eq!(get_abs_addr(0, 0x4000), 0x4000);
    assert_eq!(get_abs_addr(1, 0x4000), 0x4000);
    assert_eq!(get_abs_addr(2, 0x4123), 0x8123);
    assert_eq!(get_abs_addr(0x1FF, 0x7FFF), 0x1FF * 0x4000 + 0x3FFF);
    assert_eq!(get_abs_addr(3, 0x8000), 0x8000_8000);
    assert_eq!(get_abs_addr(0, 0xFF80), 0x8000_FF80);
}

#[test]
fn empty_rom_keeps_only_the_root_entries() {
    let r = analyze_rom(&rom_with(0, &[]));
    let (instrs, entries, targets) = set(&r);
    assert!(instrs.is_empty());
    assert_eq!(entries, vec![0x40, 0x48, 0x50, 0x58, 0x60, 0x100]);
    assert!(targets.is_empty());
}

#[test]
fn follows_jumps_calls_and_returns() {
    let rom = rom_with(
        0x8000,
        &[
            (0x101, &[0xC3, 0x50, 0x01]),
            (0x150, &[0xCD, 0x00, 0x02]),
            (0x153, &[0x18, 0xFE]),
            (0x200, &[0x3E, 0x05, 0xC9]),
        ],
    );
    let r = analyze_rom(&rom);
    let (instrs, entries, targets) = set(&r);
    assert_eq!(instrs.len(), 198);
    assert_eq!(instrs[0], 0x40);
    assert_eq!(instrs[191], 0xFF);
    assert_eq!(&instrs[192..], &[0x100, 0x101, 0x150, 0x153, 0x200, 0x202]);
    assert_eq!(entries, vec![0x40, 0x48, 0x50, 0x58, 0x60, 0x100, 0x153, 0x200]);
    assert_eq!(targets, vec![0x150, 0x153]);
    let call = &r.instructions[&0x150];
    assert_eq!(call.mnemonic, "CALL 0x0200");
    assert_eq!(call.flow, FlowControl::Call(0x0200));
    let ld = &r.instructions[&0x200];
    assert_eq!(ld.bytes, vec![0x3E, 0x05]);
    assert_eq!(ld.mnemonic, "LD A, 0x05");
    assert_eq!(r.instructions[&0x202].flow, FlowControl::Return);
}

#[test]
fn promotes_targets_that_cross_functions() {
    let rom = rom_with(
        0x8000,
        &[
            (0x101, &[0xC3, 0x50, 0x01]),
            (0x150, &[0xCD, 0x00, 0x02, 0x00, 0xC9]),
            (0x200, &[0xC3, 0x54, 0x01]),
        ],
    );
    let r = analyze_rom(&rom);
    let (instrs, entries, targets) = set(&r);
    assert_eq!(instrs.len(), 198);
    assert_eq!(entries, vec![0x40, 0x48, 0x50, 0x58, 0x60, 0x100, 0x153, 0x154, 0x200]);
    assert_eq!(targets, vec![0x150, 0x154]);
}

#[test]
fn jumps_from_bank_zero_into_the_switchable_area_reach_every_bank() {
    let rom = rom_with(0x10000, &[(0x100, &[0xC3, 0x00, 0x40]), (0x4000, &[0xC9]), (0x8000, &[0xC9]), (0xC000, &[0xC9])]);
    let r = analyze_rom(&rom);
    let (instrs, entries, targets) = set(&r);
    assert_eq!(instrs.len(), 196);
    assert_eq!(&instrs[192..], &[0x100, 0x4000, 0x8000, 0xC000]);
    assert_eq!(entries, vec![0x40, 0x48, 0x50, 0x58, 0x60, 0x100]);
    assert_eq!(targets, vec![0x4000, 0x8000, 0xC000]);
    assert_eq!(r.instructions[&0x4000].bank, 1);
    assert_eq!(r.instructions[&0x8000].bank, 2);
    assert_eq!(r.instructions[&0x8000].pc, 0x4000);
    assert_eq!(r.instructions[&0xC000].bank, 3);
}

#[test]
fn sweep_finds_code_nothing_reaches() {
    let rom = rom_with(0x8000, &[(0x100, &[0xC3, 0x00, 0x01]), (0x300, &[0x3E, 0x05, 0xC9])]);
    let r = analyze_rom(&rom);
    let (instrs, entries, targets) = set(&r);
    assert_eq!(instrs.len(), 195);
    assert_eq!(&instrs[192..], &[0x100, 0x300, 0x302]);
    assert_eq!(entries, vec![0x40, 0x48, 0x50, 0x58, 0x60, 0x100, 0x300]);
    assert_eq!(targets, vec![0x100]);
}

#[test]
fn groups_instructions_by_their_function() {
    let rom = rom_with(
        0x8000,
        &[
            (0x101, &[0xC3, 0x50, 0x01]),
            (0x150, &[0xCD, 0x00, 0x02]),
            (0x153, &[0x18, 0xFE]),
            (0x200, &[0x3E, 0x05, 0xC9]),
        ],
    );
    let r = analyze_rom(&rom);
    let g = group_functions(&r.instructions, &r.function_entries);
    let keys: Vec<u32> = g.keys().copied().collect();
    assert_eq!(keys, vec![0x40, 0x48, 0x50, 0x58, 0x60, 0x100, 0x153, 0x200]);
    assert_eq!(g[&0x40], (0x40..0x48).collect::<Vec<u32>>());
    assert_eq!(g[&0x60], (0x60..0x100).collect::<Vec<u32>>());
    assert_eq!(g[&0x100], vec![0x100, 0x101, 0x150]);
    assert_eq!(g[&0x153], vec![0x153]);
    assert_eq!(g[&0x200], vec![0x200, 0x202]);
}

#[test]
fn function_names_lead_back_to_their_address() {
    let rom = rom_with(0x10000, &[(0x100, &[0xC3, 0x23, 0x41]), (0x8123, &[0xC9])]);
    let mut r = analyze_rom(&rom);
    r.function_entries.insert(0x8123);
    let p = recompiler::codegen::generate_c_project(&rom, &r);
    assert!(p.dispatcher_c.contains("case 0x00008123: fn_02_4123(cpu); break;\n"));
    assert!(p.game_h.contains("void fn_02_4123(CPUState* cpu);\n"));
    assert!(p.game_c.contains("void fn_02_4123(CPUState* cpu) {\n"));
    assert_eq!(get_abs_addr(2, 0x4123), 0x8123);
    assert!(!p.dispatcher_c.contains("case 0x00004123"));
}

#[test]
fn a_single_bank_rom_has_no_switchable_targets() {
    let r = analyze_rom(&rom_with(0x4000, &[(0x100, &[0xC3, 0x00, 0x40])]));
    let (instrs, entries, targets) = set(&r);
    assert_eq!(instrs.len(), 193);
    assert_eq!(instrs[192], 0x100);
    assert_eq!(entries, vec![0x40, 0x48, 0x50, 0x58, 0x60, 0x100]);
    assert!(targets.is_empty());
}

#[test]
fn sweep_steps_over_decoded_code_and_enters_the_rest() {
    // 0x300: LD BC, 0x0505 (its operand bytes are not swept); 0x400: a lone non-zero
    // byte that does not decode (0xD3) still becomes a function entry.
    let rom = rom_with(0x8000, &[(0x100, &[0xC3, 0x00, 0x01]), (0x300, &[0x01, 0x05, 0x05, 0xC9]), (0x400, &[0xD3])]);
    let r = analyze_rom(&rom);
    let (instrs, entries, _) = set(&r);
    assert_eq!(&instrs[192..], &[0x100, 0x300, 0x303]);
    assert_eq!(entries, vec![0x40, 0x48, 0x50, 0x58, 0x60, 0x100, 0x300, 0x400]);
}

#[test]
fn local_loop_heads_stay_inside_their_function() {
    let r = analyze_rom(&rom_with(0x8000, &[(0x102, &[0x18, 0xFD])]));
    let (instrs, entries, targets) = set(&r);
    assert_eq!(&instrs[192..], &[0x100, 0x101, 0x102]);
    assert_eq!(entries, vec![0x40, 0x48, 0x50, 0x58, 0x60, 0x100]);
    assert_eq!(targets, vec![0x101]);
}

#[test]
fn traces_stop_at_the_end_of_the_rom_window() {
    let r = analyze_rom(&rom_with(0x10000, &[(0x100, &[0xC3, 0x00, 0x01]), (0x7FFE, &[0x3C, 0x3C]), (0x8000, &[0xC9])]));
    let (instrs, entries, _) = set(&r);
    assert_eq!(&instrs[192..], &[0x100, 0x7FFE, 0x7FFF, 0x8000]);
    assert!(entries.contains(&0x7FFE) && entries.contains(&0x8000));
    assert!(r.instructions.values().all(|i| i.pc < 0x8000));
    assert_eq!(r.instructions[&0x8000].bank, 2);
    assert_eq!(r.instructions[&0x8000].pc, 0x4000);
}
