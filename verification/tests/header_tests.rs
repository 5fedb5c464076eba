use recompiler::rom::{parse_rom_header, EmulationMode, HeaderError};

fn header(title: &[u8], cgb: u8, cart: u8, rom_code: u8, ram_code: u8) -> Vec<u8> {
    let mut rom = vec![0u8; 0x150];
    for (i, &b) in title.iter().enumerate() {
        rom[0x134 + i] = b;
    }
    rom[0x143] = cgb;
    rom[0x147] = cart;
    rom[0x148] = rom_code;
    rom[0x149] = ram_code;
    rom
}

#[test]
fn refuses_a_file_shorter_than_the_header() {
    assert_eq!(parse_rom_header(&[], EmulationMode::Auto).unwrap_err(), HeaderError::TooSmall);
    let short = vec![0u8; 0x14F];
    assert_eq!(parse_rom_header(&short, EmulationMode::Dmg).unwrap_err(), HeaderError::TooSmall);
    let exact = vec![0u8; 0x150];
    assert!(parse_rom_header(&exact, EmulationMode::Dmg).is_ok());
}

#[test]
fn refuses_unknown_size_codes() {
    let rom = header(b"GAME", 0, 0, 0x09, 0x00);
    assert_eq!(parse_rom_header(&rom, EmulationMode::Auto).unwrap_err(), HeaderError::UnknownRomSize(0x09));
    let rom = header(b"GAME", 0, 0, 0x00, 0x06);
    assert_eq!(parse_rom_header(&rom, EmulationMode::Auto).unwrap_err(), HeaderError::UnknownRamSize(0x06));
    // The ROM size code is checked first.
    let rom = header(b"GAME", 0, 0, 0x52, 0xFF);
    assert_eq!(parse_rom_header(&rom, EmulationMode::Auto).unwrap_err(), HeaderError::UnknownRomSize(0x52));
}

#[test]
fn maps_every_known_size_code() {
    let rom_sizes = [32768usize, 65536, 131072, 262144, 524288, 1048576, 2097152, 4194304, 8388608];
    for (code, &size) in rom_sizes.iter().enumerate() {
        let rom = header(b"", 0, 0, code as u8, 0);
        assert_eq!(parse_rom_header(&rom, EmulationMode::Auto).unwrap().rom_size, size);
    }
    let ram_sizes = [0usize, 2048, 8192, 32768, 131072, 65536];
    for (code, &size) in ram_sizes.iter().enumerate() {
        let rom = header(b"", 0, 0, 0, code as u8);
        assert_eq!(parse_rom_header(&rom, EmulationMode::Auto).unwrap().ram_size, size);
    }
}

#[test]
fn keeps_printable_title_bytes_up_to_the_first_nul_and_trims() {
    let rom = header(&[b' ', b' ', b'H', b'I', 0x07, b'!', 0xC3, b' ', 0x00, b'Z'], 0, 0, 0, 0);
    assert_eq!(parse_rom_header(&rom, EmulationMode::Auto).unwrap().title, "HI!");
    let rom = header(b"ABCDEFGHIJKLMNO", 0x80, 0, 0, 0);
    assert_eq!(parse_rom_header(&rom, EmulationMode::Auto).unwrap().title, "ABCDEFGHIJKLMNO");
    let rom = header(b"TETRIS", 0, 0, 0, 0);
    assert_eq!(parse_rom_header(&rom, EmulationMode::Auto).unwrap().title, "TETRIS");
    let rom = header(&[0x00, b'A'], 0, 0, 0, 0);
    assert_eq!(parse_rom_header(&rom, EmulationMode::Auto).unwrap().title, "");
}

#[test]
fn decides_the_target_from_mode_and_cgb_flag() {
    let cases = [
        (EmulationMode::Auto, 0x80u8, true),
        (EmulationMode::Auto, 0xC0, true),
        (EmulationMode::Auto, 0x00, false),
        (EmulationMode::Auto, 0x81, false),
        (EmulationMode::Dmg, 0xC0, false),
        (EmulationMode::Cgb, 0x00, true),
    ];
    for &(mode, flag, gbc) in cases.iter() {
        let rom = header(b"X", flag, 0, 0, 0);
        assert_eq!(parse_rom_header(&rom, mode).unwrap().is_gbc, gbc);
    }
}

#[test]
fn keeps_cartridge_type_and_all_bytes() {
    let mut rom = header(b"POKEMON", 0, 0x1B, 0x01, 0x03);
    rom.extend_from_slice(&[1, 2, 3]);
    let info = parse_rom_header(&rom, EmulationMode::Auto).unwrap();
    assert_eq!(info.cartridge_type, 0x1B);
    assert_eq!(info.rom_size, 65536);
    assert_eq!(info.ram_size, 32768);
    assert_eq!(info.rom_data, rom);
}
