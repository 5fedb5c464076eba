use recompiler::text::{push_dec, push_dec_signed8, push_hex_fixed, push_hex_min};

fn hex_fixed(v: u64, w: u32) -> String {
    let mut s = String::new();
    push_hex_fixed(&mut s, v, w);
    s
}

fn hex_min(v: u64, w: u32) -> String {
    let mut s = String::new();
    push_hex_min(&mut s, v, w);
    s
}

#[test]
fn hex_rendering_matches_std_formatting() {
    for v in [0u64, 1, 0x0F, 0x10, 0xAB, 0xFF] {
        assert_eq!(hex_fixed(v, 2), format!("{:02X}", v));
    }
    for v in [0u64, 0x153, 0xC000, 0xFFFF] {
        assert_eq!(hex_fixed(v, 4), format!("{:04X}", v));
    }
    assert_eq!(hex_fixed(0x8000_0150, 8), "80000150");
    for v in [0u64, 5, 0x1F, 0x123, 0xFFFF, u64::MAX] {
        assert_eq!(hex_min(v, 2), format!("{:02X}", v));
    }
}

#[test]
fn decimal_rendering_matches_std_formatting() {
    for v in [0u64, 7, 10, 99, 100, 8192, 8388608, u64::MAX] {
        let mut s = String::from("x=");
        push_dec(&mut s, v);
        assert_eq!(s, format!("x={}", v));
    }
    for b in [0u8, 1, 127, 128, 200, 255] {
        let mut s = String::new();
        push_dec_signed8(&mut s, b);
        assert_eq!(s, format!("{}", b as i8));
    }
}
