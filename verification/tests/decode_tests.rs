use recompiler::decode::{decode_cb_instruction, decode_instruction, instruction_len, relative_target, FlowControl};

fn mnemonic(data: &[u8], pc: u16) -> String {
    decode_instruction(data, pc, 0).expect("decodable").mnemonic
}

#[test]
fn decodes_nop() {
    let inst = decode_instruction(&[0x00, 0xFF], 0x0100, 0).unwrap();
    assert_eq!(inst.pc, 0x0100);
    assert_eq!(inst.bank, 0);
    assert_eq!(inst.bytes, vec![0x00]);
    assert_eq!(inst.mnemonic, "NOP");
    assert_eq!(inst.flow, FlowControl::Normal);
}

#[test]
fn decodes_immediates_in_upper_case_hex() {
    assert_eq!(mnemonic(&[0x01, 0x34, 0x12], 0), "LD BC, 0x1234");
    assert_eq!(mnemonic(&[0x06, 0xAB], 0), "LD B, 0xAB");
    assert_eq!(mnemonic(&[0x3E, 0x05], 0), "LD A, 0x05");
    assert_eq!(mnemonic(&[0x08, 0x34, 0x12], 0), "LD (0x1234), SP");
    assert_eq!(mnemonic(&[0xEA, 0x00, 0xC0], 0), "LD (0xC000), A");
    assert_eq!(mnemonic(&[0xFA, 0x0F, 0xA0], 0), "LD A, (0xA00F)");
    assert_eq!(mnemonic(&[0xE0, 0x40], 0), "LDH (0xFF00 + 0x40), A");
    assert_eq!(mnemonic(&[0xF0, 0x44], 0), "LDH A, (0xFF00 + 0x44)");
    assert_eq!(mnemonic(&[0x36, 0x00], 0), "LD (HL), 0x00");
    assert_eq!(mnemonic(&[0xFE, 0x90], 0), "CP 0x90");
}

#[test]
fn decodes_signed_immediates_in_decimal() {
    assert_eq!(mnemonic(&[0xE8, 0xFE], 0), "ADD SP, -2");
    assert_eq!(mnemonic(&[0xE8, 0x80], 0), "ADD SP, -128");
    assert_eq!(mnemonic(&[0xF8, 0x05], 0), "LD HL, SP + 5");
    assert_eq!(mnemonic(&[0xF8, 0x7F], 0), "LD HL, SP + 127");
}

#[test]
fn decodes_relative_jumps() {
    let jr = decode_instruction(&[0x18, 0xFE], 0x0153, 0).unwrap();
    assert_eq!(jr.mnemonic, "JR 0x0153");
    assert_eq!(jr.flow, FlowControl::Jump(0x0153));
    let jrnz = decode_instruction(&[0x20, 0x05], 0x0100, 0).unwrap();
    assert_eq!(jrnz.mnemonic, "JR NZ, 0x0107");
    assert_eq!(jrnz.flow, FlowControl::Branch(0x0107));
    let wrap = decode_instruction(&[0x18, 0x80], 0x0000, 0).unwrap();
    assert_eq!(wrap.flow, FlowControl::Jump(0xFF82));
    assert_eq!(wrap.mnemonic, "JR 0xFF82");
    assert_eq!(relative_target(0xFFFF, 0x01), 0x0002);
    assert_eq!(mnemonic(&[0x38, 0x10], 0x4000), "JR C, 0x4012");
}

#[test]
fn decodes_absolute_flow() {
    let jp = decode_instruction(&[0xC3, 0x50, 0x01], 0x0101, 0).unwrap();
    assert_eq!(jp.mnemonic, "JP 0x0150");
    assert_eq!(jp.flow, FlowControl::Jump(0x0150));
    let jpz = decode_instruction(&[0xCA, 0x00, 0x40], 0, 0).unwrap();
    assert_eq!(jpz.flow, FlowControl::Branch(0x4000));
    let call = decode_instruction(&[0xCD, 0x00, 0x02], 0x0150, 0).unwrap();
    assert_eq!(call.mnemonic, "CALL 0x0200");
    assert_eq!(call.flow, FlowControl::Call(0x0200));
    let rst = decode_instruction(&[0xFF], 0x1000, 3).unwrap();
    assert_eq!(rst.mnemonic, "RST 0x38");
    assert_eq!(rst.flow, FlowControl::Call(0x0038));
    assert_eq!(rst.bank, 3);
    assert_eq!(decode_instruction(&[0xD7], 0, 0).unwrap().flow, FlowControl::Call(0x0010));
    assert_eq!(decode_instruction(&[0xC9], 0, 0).unwrap().flow, FlowControl::Return);
    assert_eq!(decode_instruction(&[0xD9], 0, 0).unwrap().mnemonic, "RETI");
    let jphl = decode_instruction(&[0xE9], 0, 0).unwrap();
    assert_eq!(jphl.mnemonic, "JP HL");
    assert_eq!(jphl.flow, FlowControl::JumpIndirect);
    assert_eq!(decode_instruction(&[0xC0], 0, 0).unwrap().flow, FlowControl::Normal);
}

#[test]
fn decodes_halt_and_stop() {
    let halt = decode_instruction(&[0x76], 0, 0).unwrap();
    assert_eq!(halt.mnemonic, "HALT");
    assert_eq!(halt.flow, FlowControl::Halt);
    let stop = decode_instruction(&[0x10, 0x00], 0, 0).unwrap();
    assert_eq!(stop.mnemonic, "STOP");
    assert_eq!(stop.bytes, vec![0x10, 0x00]);
    assert_eq!(stop.flow, FlowControl::Halt);
}

#[test]
fn decodes_register_blocks() {
    assert_eq!(mnemonic(&[0x41], 0), "LD B, C");
    assert_eq!(mnemonic(&[0x7E], 0), "LD A, (HL)");
    assert_eq!(mnemonic(&[0x70], 0), "LD (HL), B");
    assert_eq!(mnemonic(&[0x86], 0), "ADD A, (HL)");
    assert_eq!(mnemonic(&[0x8F], 0), "ADC A, A");
    assert_eq!(mnemonic(&[0x92], 0), "SUB D");
    assert_eq!(mnemonic(&[0x9F], 0), "SBC A, A");
    assert_eq!(mnemonic(&[0xA3], 0), "AND E");
    assert_eq!(mnemonic(&[0xAF], 0), "XOR A");
    assert_eq!(mnemonic(&[0xB5], 0), "OR L");
    assert_eq!(mnemonic(&[0xBE], 0), "CP (HL)");
}

#[test]
fn decodes_cb_prefix() {
    let bit = decode_instruction(&[0xCB, 0x7C], 0, 0).unwrap();
    assert_eq!(bit.mnemonic, "BIT 7, H");
    assert_eq!(bit.bytes.len(), 2);
    assert_eq!(decode_cb_instruction(0x11), "RL C");
    assert_eq!(decode_cb_instruction(0x00), "RLC B");
    assert_eq!(decode_cb_instruction(0x37), "SWAP A");
    assert_eq!(decode_cb_instruction(0x3E), "SRL (HL)");
    assert_eq!(decode_cb_instruction(0x86), "RES 0, (HL)");
    assert_eq!(decode_cb_instruction(0xFF), "SET 7, A");
    assert_eq!(decode_cb_instruction(0x2A), "SRA D");
}

#[test]
fn refuses_undefined_and_truncated() {
    for op in [0xD3u8, 0xDB, 0xDD, 0xE3, 0xE4, 0xEB, 0xEC, 0xED, 0xF4, 0xFC, 0xFD] {
        assert!(decode_instruction(&[op, 0, 0], 0, 0).is_none());
    }
    assert!(decode_instruction(&[], 0, 0).is_none());
    assert!(decode_instruction(&[0x01, 0x00], 0, 0).is_none());
    assert!(decode_instruction(&[0xCB], 0, 0).is_none());
    assert!(decode_instruction(&[0x10], 0, 0).is_none());
    assert!(decode_instruction(&[0x18], 0, 0).is_none());
}

#[test]
fn instruction_lengths() {
    assert_eq!(instruction_len(0x00), 1);
    assert_eq!(instruction_len(0x10), 2);
    assert_eq!(instruction_len(0xCB), 2);
    assert_eq!(instruction_len(0xE8), 2);
    assert_eq!(instruction_len(0xCD), 3);
    assert_eq!(instruction_len(0x08), 3);
}
