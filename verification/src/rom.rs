//! The cartridge header: title, colour support, cartridge type and memory sizes.
use vstd::prelude::*;
use crate::decode::copy_prefix;
use crate::text::push_char;

verus! {

/// Which hardware the generated program targets.
#[derive(Clone, Copy, Debug, PartialEq, Eq, Structural)]
pub enum EmulationMode {
    /// The classic GameBoy (DMG).
    Dmg,
    /// The GameBoy Color (CGB).
    Cgb,
    /// Decided by the CGB flag of the header.
    Auto,
}

/// What the header says about a ROM, with the ROM's bytes.
#[derive(Debug)]
pub struct RomInfo {
    pub title: String,
    pub is_gbc: bool,
    pub cartridge_type: u8,
    pub rom_size: usize,
    pub ram_size: usize,
    pub rom_data: Vec<u8>,
}

/// Why a header was refused.
#[derive(Clone, Copy, Debug, PartialEq, Eq, Structural)]
pub enum HeaderError {
    /// The file ends before the header does (0x150 bytes).
    TooSmall,
    /// The ROM size code at 0x148 is not one of 0x00..=0x08.
    UnknownRomSize(u8),
    /// The RAM size code at 0x149 is not one of 0x00..=0x05.
    UnknownRamSize(u8),
}

/// First offset past the header.
pub const HEADER_END: usize = 0x150;

/// Bytes kept in the title: printable ASCII and the space.
pub open spec fn is_title_byte(b: u8) -> bool {
    0x20 <= b <= 0x7E
}

/// Index of the first NUL byte of `s`, or its length when it holds none.
pub open spec fn nul_index(s: Seq<u8>) -> int {
    if exists|z: int| 0 <= z < s.len() && s[z] == 0 {
        choose|z: int| 0 <= z < s.len() && s[z] == 0 && forall|j: int| 0 <= j < z ==> s[j] != 0
    } else {
        s.len() as int
    }
}

/// `s` without its leading spaces.
pub open spec fn trim_start(s: Seq<u8>) -> Seq<u8>
    decreases s.len(),
{
    if s.len() > 0 && s[0] == 0x20 {
        trim_start(s.drop_first())
    } else {
        s
    }
}

/// `s` without its trailing spaces.
pub open spec fn trim_end(s: Seq<u8>) -> Seq<u8>
    decreases s.len(),
{
    if s.len() > 0 && s.last() == 0x20 {
        trim_end(s.drop_last())
    } else {
        s
    }
}

/// The title bytes: the header's title field (0x134..0x143) up to its first NUL, keeping only
/// printable characters and spaces, without leading or trailing spaces.
pub open spec fn title_bytes(rom: Seq<u8>) -> Seq<u8> {
    let field = rom.subrange(0x134, 0x143);
    trim_end(trim_start(field.take(nul_index(field)).filter(|b: u8| is_title_byte(b))))
}

/// The title as text.
pub open spec fn title_of(rom: Seq<u8>) -> Seq<char> {
    title_bytes(rom).map_values(|b: u8| b as char)
}

/// Whether the target is the GameBoy Color: forced by the mode, or, in `Auto`, when the CGB
/// flag is 0x80 (DMG compatible) or 0xC0 (CGB only).
pub open spec fn is_gbc_of(mode: EmulationMode, cgb_flag: u8) -> bool {
    match mode {
        EmulationMode::Dmg => false,
        EmulationMode::Cgb => true,
        EmulationMode::Auto => cgb_flag == 0x80 || cgb_flag == 0xC0,
    }
}

/// ROM size in bytes for a header code: 32 KiB doubled `code` times, for codes up to 0x08.
pub open spec fn rom_size_of(code: u8) -> Option<nat> {
    if code == 0x00 {
        Some(32 * 1024)
    } else if code == 0x01 {
        Some(64 * 1024)
    } else if code == 0x02 {
        Some(128 * 1024)
    } else if code == 0x03 {
        Some(256 * 1024)
    } else if code == 0x04 {
        Some(512 * 1024)
    } else if code == 0x05 {
        Some(1024 * 1024)
    } else if code == 0x06 {
        Some(2048 * 1024)
    } else if code == 0x07 {
        Some(4096 * 1024)
    } else if code == 0x08 {
        Some(8192 * 1024)
    } else {
        None
    }
}

/// External RAM size in bytes for a header code.
pub open spec fn ram_size_of(code: u8) -> Option<nat> {
    if code == 0x00 {
        Some(0)
    } else if code == 0x01 {
        Some(2 * 1024)
    } else if code == 0x02 {
        Some(8 * 1024)
    } else if code == 0x03 {
        Some(32 * 1024)
    } else if code == 0x04 {
        Some(128 * 1024)
    } else if code == 0x05 {
        Some(64 * 1024)
    } else {
        None
    }
}

fn rom_size_exec(code: u8) -> (r: Option<usize>)
    ensures
        r matches Some(n) ==> rom_size_of(code) == Some(n as nat),
        r is None ==> rom_size_of(code) is None,
{
    match code {
        0x00 => Some(32 * 1024),
        0x01 => Some(64 * 1024),
        0x02 => Some(128 * 1024),
        0x03 => Some(256 * 1024),
        0x04 => Some(512 * 1024),
        0x05 => Some(1024 * 1024),
        0x06 => Some(2048 * 1024),
        0x07 => Some(4096 * 1024),
        0x08 => Some(8192 * 1024),
        _ => None,
    }
}

fn ram_size_exec(code: u8) -> (r: Option<usize>)
    ensures
        r matches Some(n) ==> ram_size_of(code) == Some(n as nat),
        r is None ==> ram_size_of(code) is None,
{
    match code {
        0x00 => Some(0),
        0x01 => Some(2 * 1024),
        0x02 => Some(8 * 1024),
        0x03 => Some(32 * 1024),
        0x04 => Some(128 * 1024),
        0x05 => Some(64 * 1024),
        _ => None,
    }
}

proof fn lemma_trim_start_skip(s: Seq<u8>, i: int)
    requires
        0 <= i <= s.len(),
        forall|j: int| 0 <= j < i ==> s[j] == 0x20,
    ensures
        trim_start(s) == trim_start(s.subrange(i, s.len() as int)),
    decreases i,
{
    if i > 0 {
        assert(s.drop_first().subrange(i - 1, s.drop_first().len() as int) == s.subrange(
            i,
            s.len() as int,
        ));
        lemma_trim_start_skip(s.drop_first(), i - 1);
    } else {
        assert(s.subrange(0, s.len() as int) == s);
    }
}

proof fn lemma_trim_end_skip(s: Seq<u8>, k: int)
    requires
        0 <= k <= s.len(),
        forall|j: int| k <= j < s.len() ==> s[j] == 0x20,
    ensures
        trim_end(s) == trim_end(s.subrange(0, k)),
    decreases s.len() - k,
{
    if k < s.len() {
        assert(s.drop_last().subrange(0, k) == s.subrange(0, k));
        lemma_trim_end_skip(s.drop_last(), k);
    } else {
        assert(s.subrange(0, k) == s);
    }
}

/// Collects the title bytes from the header of `rom_data` (which is at least `HEADER_END` long).
fn extract_title(rom_data: &[u8]) -> (title: String)
    requires
        rom_data@.len() >= HEADER_END,
    ensures
        title@ == title_of(rom_data@),
{
    let ghost field = rom_data@.subrange(0x134, 0x143);
    let mut kept: Vec<u8> = Vec::new();
    let mut i: usize = 0x134;
    let mut stopped = false;
    while i < 0x143
        invariant_except_break
            0x134 <= i <= 0x143,
            rom_data@.len() >= HEADER_END,
            field == rom_data@.subrange(0x134, 0x143),
            forall|j: int| 0 <= j < i - 0x134 ==> field[j] != 0,
            kept@ == field.take(i - 0x134).filter(|b: u8| is_title_byte(b)),
        ensures
            0x134 <= i <= 0x143,
            i == 0x143 || field[i - 0x134] == 0,
            forall|j: int| 0 <= j < i - 0x134 ==> field[j] != 0,
            kept@ == field.take(i - 0x134).filter(|b: u8| is_title_byte(b)),
        decreases 0x143 - i,
    {
        let b = rom_data[i];
        if b == 0 {
            break;
        }
        proof {
            let ghost n: int = i - 0x134;
            assert(field.take(n + 1).drop_last() == field.take(n));
            assert(field.take(n + 1).last() == b);
        }
        let ghost before = kept@;
        if 0x20 <= b && b <= 0x7E {
            kept.push(b);
        }
        proof {
            let n: int = i - 0x134;
            let t = field.take(n + 1);
            assert(t.drop_last() == field.take(n));
            assert(t.len() > 0);
            reveal(Seq::filter);
            assert(t.filter(|b: u8| is_title_byte(b)) == (if is_title_byte(t.last()) {
                t.drop_last().filter(|b: u8| is_title_byte(b)).push(t.last())
            } else {
                t.drop_last().filter(|b: u8| is_title_byte(b))
            }));
        }
        i = i + 1;
    }
    proof {
        let n: int = i - 0x134;
        if n < 15 {
            assert(0 <= n < field.len() && field[n] == 0);
            let z = nul_index(field);
            assert(z == n) by {
                if z < n {
                    assert(field[z] != 0);
                } else if z > n {
                    assert(field[n] != 0);
                }
            }
        } else {
            assert(field.take(15) == field);
        }
        assert(nul_index(field) == n);
    }
    let ghost raw = kept@;
    let len = kept.len();
    let mut start: usize = 0;
    while start < len && kept[start] == 0x20
        invariant
            start <= len == kept@.len(),
            forall|j: int| 0 <= j < start ==> kept@[j] == 0x20,
        decreases len - start,
    {
        start = start + 1;
    }
    let mut end: usize = len;
    while end > start && kept[end - 1] == 0x20
        invariant
            start <= end <= len == kept@.len(),
            forall|j: int| end <= j < len ==> kept@[j] == 0x20,
        decreases end,
    {
        end = end - 1;
    }
    proof {
        lemma_trim_start_skip(raw, start as int);
        let mid = raw.subrange(start as int, len as int);
        if start < len {
            assert(mid[0] != 0x20);
        }
        assert(trim_start(raw) == mid);
        lemma_trim_end_skip(mid, end - start);
        assert(mid.subrange(0, end - start) == raw.subrange(start as int, end as int));
        let fin = raw.subrange(start as int, end as int);
        if start < end {
            assert(fin.last() != 0x20);
        }
        assert(trim_end(mid) == fin);
    }
    let mut title = String::new();
    let mut k: usize = start;
    while k < end
        invariant
            start <= k <= end <= len == kept@.len(),
            kept@ == raw,
            title@ == raw.subrange(start as int, k as int).map_values(|b: u8| b as char),
        decreases end - k,
    {
        push_char(&mut title, kept[k] as char);
        k = k + 1;
        assert(raw.subrange(start as int, k as int).map_values(|b: u8| b as char)
            =~= raw.subrange(start as int, k - 1).map_values(|b: u8| b as char).push(
            raw[k - 1] as char,
        ));
    }
    title
}

/// Reads the cartridge header of `rom_data`.
///
/// Fails with `TooSmall` below 0x150 bytes, then with `UnknownRomSize` or `UnknownRamSize`
/// when the size code at 0x148 or 0x149 is not a known one; otherwise returns the title,
/// whether the target is the GameBoy Color, the cartridge type (0x147), both sizes and a
/// copy of the bytes.
pub fn parse_rom_header(rom_data: &[u8], requested_mode: EmulationMode) -> (r: Result<
    RomInfo,
    HeaderError,
>)
    ensures
        rom_data@.len() < HEADER_END ==> r == Err::<RomInfo, HeaderError>(HeaderError::TooSmall),
        rom_data@.len() >= HEADER_END && rom_size_of(rom_data@[0x148]) is None ==> r == Err::<
            RomInfo,
            HeaderError,
        >(HeaderError::UnknownRomSize(rom_data@[0x148])),
        rom_data@.len() >= HEADER_END && rom_size_of(rom_data@[0x148]) is Some && ram_size_of(
            rom_data@[0x149],
        ) is None ==> r == Err::<RomInfo, HeaderError>(
            HeaderError::UnknownRamSize(rom_data@[0x149]),
        ),
        rom_data@.len() >= HEADER_END && rom_size_of(rom_data@[0x148]) is Some && ram_size_of(
            rom_data@[0x149],
        ) is Some ==> (r matches Ok(info) && {
            &&& info.title@ == title_of(rom_data@)
            &&& info.is_gbc == is_gbc_of(requested_mode, rom_data@[0x143])
            &&& info.cartridge_type == rom_data@[0x147]
            &&& rom_size_of(rom_data@[0x148]) == Some(info.rom_size as nat)
            &&& ram_size_of(rom_data@[0x149]) == Some(info.ram_size as nat)
            &&& info.rom_data@ == rom_data@
        }),
        r matches Ok(info) ==> (requested_mode == EmulationMode::Dmg ==> !info.is_gbc) && (requested_mode
            == EmulationMode::Cgb ==> info.is_gbc) && (requested_mode == EmulationMode::Auto ==> (info.is_gbc
            <==> (rom_data@[0x143] == 0x80 || rom_data@[0x143] == 0xC0))),
{
    if rom_data.len() < HEADER_END {
        return Err(HeaderError::TooSmall);
    }
    let title = extract_title(rom_data);
    let cgb_flag = rom_data[0x0143];
    let is_gbc = match requested_mode {
        EmulationMode::Dmg => false,
        EmulationMode::Cgb => true,
        EmulationMode::Auto => cgb_flag == 0x80 || cgb_flag == 0xC0,
    };
    let cartridge_type = rom_data[0x0147];
    let rom_size_code = rom_data[0x0148];
    let rom_size = match rom_size_exec(rom_size_code) {
        Some(n) => n,
        None => {
            return Err(HeaderError::UnknownRomSize(rom_size_code));
        },
    };
    let ram_size_code = rom_data[0x0149];
    let ram_size = match ram_size_exec(ram_size_code) {
        Some(n) => n,
        None => {
            return Err(HeaderError::UnknownRamSize(ram_size_code));
        },
    };
    let copy = copy_prefix(rom_data, rom_data.len());
    assert(rom_data@.take(rom_data@.len() as int) == rom_data@);
    Ok(RomInfo { title, is_gbc, cartridge_type, rom_size, ram_size, rom_data: copy })
}

} // verus!
