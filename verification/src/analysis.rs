//! Control-flow exploration of a ROM: which addresses hold code, where functions begin,
//! and which addresses are targets of local jumps.
use vstd::prelude::*;
use std::collections::{BTreeMap, BTreeSet, VecDeque};
use crate::decode::{
    decodable, decode_instruction, flow_of, mnemonic_of, opcode_len, DecodedInstruction,
    FlowControl,
};
use crate::order::{lemma_increasing_keys, lemma_u32_keys_ordered};
use crate::rom::RomInfo;
use crate::codegen::{instructions_well_formed, well_formed};
use vstd::std_specs::iter::IteratorSpec;

verus! {

broadcast use vstd::std_specs::btree::group_btree_axioms;

/// Size of a switchable ROM bank.
pub const BANK_SIZE: usize = 16384;

/// The absolute address of `pc` as seen with `bank` mapped at 0x4000..0x8000: the ROM offset
/// for addresses below 0x8000 (bank 0 stands for bank 1 in the switchable window), and
/// `pc` with the top bit set for RAM and I/O addresses.
pub open spec fn abs_addr_spec(bank: u16, pc: u16) -> u32 {
    if pc < 0x4000 {
        pc as u32
    } else if pc < 0x8000 {
        let b: int = if bank == 0 { 1 } else { bank as int };
        (b * 16384 + (pc - 0x4000)) as u32
    } else {
        (pc + 0x8000_0000) as u32
    }
}

/// Absolute address of a bank and a 16-bit address (see `abs_addr_spec`).
pub fn get_abs_addr(bank: u16, pc: u16) -> (r: u32)
    ensures
        r == abs_addr_spec(bank, pc),
{
    if pc < 0x4000 {
        pc as u32
    } else if pc < 0x8000 {
        let b: u16 = if bank == 0 { 1 } else { bank };
        (b as u32) * 16384 + (pc - 0x4000) as u32
    } else {
        assert((pc as u32) | 0x8000_0000u32 == pc as u32 + 0x8000_0000u32) by (bit_vector)
            requires
                pc >= 0x8000,
        ;
        pc as u32 | 0x8000_0000
    }
}

/// Offset in the ROM image of the byte at `pc` with `bank` mapped: addresses from 0x4000 on
/// are read from the bank (bank 0 standing for bank 1).
pub open spec fn rom_offset(bank: u16, pc: u16) -> int {
    if pc < 0x4000 {
        pc as int
    } else {
        (if bank == 0 { 1int } else { bank as int }) * 16384 + pc - 0x4000
    }
}

/// The bank recorded for an instruction traced at `pc` with `bank` mapped.
pub open spec fn norm_bank(bank: u16, pc: u16) -> u16 {
    if 0x4000 <= pc < 0x8000 && bank == 0 {
        1
    } else {
        bank
    }
}

/// Address of the instruction that follows `inst`, modulo 2^16.
pub open spec fn next_pc(inst: DecodedInstruction) -> u16 {
    ((inst.pc + inst.bytes@.len()) % 65536) as u16
}

/// Number of whole 16 KiB banks in the image, modulo 2^16.
pub open spec fn bank_count(rom: Seq<u8>) -> u16 {
    ((rom.len() / 16384) % 65536) as u16
}

/// Whether a complete, defined instruction starts at offset `off` of the image.
pub open spec fn decodes_at(rom: Seq<u8>, off: int) -> bool {
    0 <= off < rom.len() && decodable(rom.skip(off))
}

/// `inst`, stored under address `a`, is the decoding of the image at its address.
pub open spec fn matches_rom(rom: Seq<u8>, a: u32, inst: DecodedInstruction) -> bool {
    let off = rom_offset(inst.bank, inst.pc);
    &&& a == abs_addr_spec(inst.bank, inst.pc)
    &&& decodes_at(rom, off)
    &&& inst.bytes@ == rom.skip(off).take(opcode_len(rom[off]) as int)
    &&& inst.mnemonic@ == mnemonic_of(rom.skip(off), inst.pc)
    &&& inst.flow == flow_of(rom.skip(off), inst.pc)
}

/// A ROM address below 0x8000_0000 has been disassembled, or holds no instruction there.
pub open spec fn explored(rom: Seq<u8>, keys: Set<u32>, a: u32) -> bool {
    keys.contains(a) || !decodes_at(rom, a as int)
}

/// Flows after which execution may continue with the next instruction.
pub open spec fn falls_through(f: FlowControl) -> bool {
    f is Normal || f is Branch || f is Call || f is Halt
}

/// `p` holds of the absolute address of target `t` of an instruction recorded in `bank`:
/// a target in the switchable window seen from bank 0 stands for that address in every bank
/// from 1 below `nb`; an instruction recorded in bank 1 may have been traced either way.
pub open spec fn fanout_holds(bank: u16, t: u16, nb: u16, p: spec_fn(u32) -> bool) -> bool {
    if t < 0x4000 || bank >= 2 {
        p(abs_addr_spec(bank, t))
    } else if bank == 0 {
        forall|b: u16| 1 <= b < nb ==> #[trigger] p(abs_addr_spec(b, t))
    } else {
        p(abs_addr_spec(1, t)) || forall|b: u16| 1 <= b < nb ==> #[trigger] p(abs_addr_spec(b, t))
    }
}

/// What the exploration owes for one decoded instruction: the next instruction and every
/// jump, branch and call target in ROM are `reached`; call targets and return addresses are
/// `entered` as functions; jump and branch targets are `recorded`.
pub open spec fn successors_hold(
    inst: DecodedInstruction,
    nb: u16,
    reached: spec_fn(u32) -> bool,
    entered: spec_fn(u32) -> bool,
    recorded: spec_fn(u32) -> bool,
) -> bool {
    &&& (falls_through(inst.flow) && next_pc(inst) < 0x8000) ==> reached(
        abs_addr_spec(inst.bank, next_pc(inst)),
    )
    &&& match inst.flow {
        FlowControl::Jump(t) => t < 0x8000 ==> fanout_holds(inst.bank, t, nb, reached)
            && fanout_holds(inst.bank, t, nb, recorded),
        FlowControl::Branch(t) => t < 0x8000 ==> fanout_holds(inst.bank, t, nb, reached)
            && fanout_holds(inst.bank, t, nb, recorded),
        FlowControl::Call(t) => {
            &&& t < 0x8000 ==> fanout_holds(inst.bank, t, nb, reached) && fanout_holds(
                inst.bank,
                t,
                nb,
                entered,
            )
            &&& next_pc(inst) < 0x8000 ==> entered(abs_addr_spec(inst.bank, next_pc(inst)))
        },
        _ => true,
    }
}

/// Some queued start point lies at absolute address `a`.
pub open spec fn queued(q: Seq<(u16, u16, bool)>, a: u32) -> bool {
    exists|i: int| 0 <= i < q.len() && abs_addr_spec(#[trigger] q[i].0, q[i].1) == a
}

/// Some queued function start lies at absolute address `a`.
pub open spec fn queued_call(q: Seq<(u16, u16, bool)>, a: u32) -> bool {
    exists|i: int| 0 <= i < q.len() && abs_addr_spec(#[trigger] q[i].0, q[i].1) == a && q[i].2
}

/// Addresses that are explored, queued, or about to be traced.
pub open spec fn reached_fn(rom: Seq<u8>, keys: Set<u32>, q: Seq<(u16, u16, bool)>, cur: Option<u32>) -> spec_fn(u32) -> bool {
    |a: u32| explored(rom, keys, a) || queued(q, a) || cur == Some(a)
}

/// Addresses that are function entries or queued as function starts.
pub open spec fn entered_fn(entries: Set<u32>, q: Seq<(u16, u16, bool)>) -> spec_fn(u32) -> bool {
    |a: u32| entries.contains(a) || queued_call(q, a)
}

/// Membership in a set, as a predicate.
pub open spec fn member_fn(s: Set<u32>) -> spec_fn(u32) -> bool {
    |a: u32| s.contains(a)
}

/// Every decoded instruction's successors are accounted for, given what is still pending.
pub open spec fn obligations_ok(
    rom: Seq<u8>,
    instrs: Map<u32, DecodedInstruction>,
    entries: Set<u32>,
    targets: Set<u32>,
    q: Seq<(u16, u16, bool)>,
    cur: Option<u32>,
) -> bool {
    &&& forall|a: u32|
        #[trigger] instrs.dom().contains(a) ==> successors_hold(
            instrs[a],
            bank_count(rom),
            reached_fn(rom, instrs.dom(), q, cur),
            entered_fn(entries, q),
            member_fn(targets),
        )
    &&& forall|r: u32| #[trigger] is_root_entry(r) ==> reached_fn(rom, instrs.dom(), q, cur)(r)
}

/// The interrupt vectors and the entry point.
pub open spec fn is_root_entry(a: u32) -> bool {
    a == 0x0100 || a == 0x0040 || a == 0x0048 || a == 0x0050 || a == 0x0058 || a == 0x0060
}

/// `a` is the absolute address of target `t` of an instruction recorded in `bank`, or, when
/// the instruction lies in bank 0 or 1 and `t` in the switchable window, of `t` in one of
/// the switchable banks below `nb` (see `fanout_holds`).
pub open spec fn target_at(bank: u16, t: u16, nb: u16, a: u32) -> bool {
    ||| a == abs_addr_spec(bank, t)
    ||| bank <= 1 && t >= 0x4000 && exists|b: u16| 1 <= b < nb && a == #[trigger] abs_addr_spec(b, t)
}

/// `inst` falls through to the instruction at absolute address `a`.
pub open spec fn falls_into(inst: DecodedInstruction, a: u32) -> bool {
    falls_through(inst.flow) && a == abs_addr_spec(inst.bank, next_pc(inst))
}

/// `a` is a target in ROM of the jump or branch `inst`.
pub open spec fn jump_target_of(inst: DecodedInstruction, nb: u16, a: u32) -> bool {
    match inst.flow {
        FlowControl::Jump(t) => t < 0x8000 && target_at(inst.bank, t, nb, a),
        FlowControl::Branch(t) => t < 0x8000 && target_at(inst.bank, t, nb, a),
        _ => false,
    }
}

/// `a` is a function start that the call `inst` gives: a target in ROM, or the return
/// address when it lies in ROM.
pub open spec fn call_entry_of(inst: DecodedInstruction, nb: u16, a: u32) -> bool {
    match inst.flow {
        FlowControl::Call(t) => (t < 0x8000 && target_at(inst.bank, t, nb, a)) || (next_pc(inst)
            < 0x8000 && a == abs_addr_spec(inst.bank, next_pc(inst))),
        _ => false,
    }
}

/// `a` is where execution may go after `inst`: the next instruction when it falls through,
/// or a target in ROM of its jump, branch or call.
pub open spec fn successor_of(inst: DecodedInstruction, nb: u16, a: u32) -> bool {
    ||| falls_into(inst, a)
    ||| jump_target_of(inst, nb, a)
    ||| match inst.flow {
        FlowControl::Call(t) => t < 0x8000 && target_at(inst.bank, t, nb, a),
        _ => false,
    }
}

/// `a` is a position that the sweep over the banks may start tracing at: in the code area
/// of a whole bank (from 0x0150 on) and holding a byte other than 0x00 and 0xFF.
pub open spec fn sweep_candidate(rom: Seq<u8>, a: u32) -> bool {
    &&& 0x150 <= a < bank_count(rom) as int * 16384
    &&& rom[a as int] != 0x00
    &&& rom[a as int] != 0xFF
}

/// Position `a` lies inside the instruction `inst` decoded at `x`, past its first byte.
pub open spec fn spans(inst: DecodedInstruction, x: u32, a: u32) -> bool {
    x < a < x + inst.bytes@.len()
}

/// The sweep has dealt with position `a`: it is decoded, a function entry, or inside a
/// decoded instruction.
pub open spec fn swept(instrs: Map<u32, DecodedInstruction>, entries: Set<u32>, a: u32) -> bool {
    ||| instrs.dom().contains(a)
    ||| entries.contains(a)
    ||| exists|x: u32| instrs.dom().contains(x) && #[trigger] spans(instrs[x], x, a)
}

/// Every sweep position below `hi` has been dealt with.
spec fn swept_below(rom: Seq<u8>, instrs: Map<u32, DecodedInstruction>, entries: Set<u32>, hi: int) -> bool {
    forall|a: u32| a < hi && #[trigger] sweep_candidate(rom, a) ==> swept(instrs, entries, a)
}

/// Growing the decoded instructions and the function entries keeps every position swept.
proof fn lemma_swept_grow(
    i1: Map<u32, DecodedInstruction>,
    e1: Set<u32>,
    i2: Map<u32, DecodedInstruction>,
    e2: Set<u32>,
)
    requires
        forall|a: u32| #[trigger] i1.dom().contains(a) ==> i2.dom().contains(a) && i2[a] == i1[a],
        e1.subset_of(e2),
    ensures
        forall|a: u32| #[trigger] swept(i1, e1, a) ==> swept(i2, e2, a),
{
    assert forall|a: u32| #[trigger] swept(i1, e1, a) implies swept(i2, e2, a) by {
        if !i1.dom().contains(a) && !e1.contains(a) {
            let x = choose|x: u32| i1.dom().contains(x) && #[trigger] spans(i1[x], x, a);
            assert(i2.dom().contains(x) && spans(i2[x], x, a));
        }
    }
}

/// Position `p` lies inside another decoded instruction.
pub open spec fn inside_other(instrs: Map<u32, DecodedInstruction>, p: u32) -> bool {
    exists|y: u32| instrs.dom().contains(y) && #[trigger] spans(instrs[y], y, p)
}

/// Where the sweep's walk over the bank of absolute address `a` begins.
pub open spec fn region_start(a: u32) -> int {
    if a < 0x4000 {
        0x150
    } else {
        a - a % 16384
    }
}

/// `a` is a position at which the sweep's walk starts a trace: a sweep candidate that no
/// decoded instruction starting below it in its bank covers, unless that instruction lies
/// inside another one (the walk, which steps over each decoded instruction from the start
/// of the bank, never stops inside one it met at its start).
pub open spec fn sweep_start(rom: Seq<u8>, instrs: Map<u32, DecodedInstruction>, a: u32) -> bool {
    &&& sweep_candidate(rom, a)
    &&& forall|p: u32|
        instrs.dom().contains(p) && region_start(a) <= p && #[trigger] spans(instrs[p], p, a)
            ==> inside_other(instrs, p)
}

/// Code at `a` comes from the entry point, an interrupt vector, a sweep start or a decoded
/// instruction it succeeds.
pub open spec fn code_origin(rom: Seq<u8>, instrs: Map<u32, DecodedInstruction>, a: u32) -> bool {
    ||| is_root_entry(a)
    ||| sweep_start(rom, instrs, a)
    ||| exists|x: u32| instrs.dom().contains(x) && #[trigger] successor_of(instrs[x], bank_count(rom), a)
}

/// A function entry at `a` is the entry point, an interrupt vector, a sweep start, or a
/// call target or return address of a decoded call.
pub open spec fn entry_origin(rom: Seq<u8>, instrs: Map<u32, DecodedInstruction>, a: u32) -> bool {
    ||| is_root_entry(a)
    ||| sweep_start(rom, instrs, a)
    ||| exists|x: u32| instrs.dom().contains(x) && #[trigger] call_entry_of(instrs[x], bank_count(rom), a)
}

/// Every candidate position from 0x0150 below `hi` that can be decoded and lies inside no
/// decoded instruction has been decoded.
spec fn walk_below(rom: Seq<u8>, instrs: Map<u32, DecodedInstruction>, hi: int) -> bool {
    forall|p: u32|
        0x150 <= p < hi && #[trigger] sweep_candidate(rom, p) && !inside_other(instrs, p) && decodes_at(rom, p as int)
            ==> instrs.dom().contains(p)
}

/// No decoded instruction from `lo` on that covers position `pos` starts a step of the
/// walk: each such instruction lies inside another one.
spec fn walk_clear(instrs: Map<u32, DecodedInstruction>, lo: int, pos: int) -> bool {
    forall|p: u32|
        #![trigger instrs[p]]
        instrs.dom().contains(p) && lo <= p < pos < p + instrs[p].bytes@.len() ==> inside_other(instrs, p)
}

/// Where the sweep's walk over bank `b` begins, as an absolute address.
pub open spec fn bank_lo(b: u16) -> int {
    if b == 0 {
        0x150
    } else {
        b as int * 16384
    }
}

/// The absolute address of position `pc` of the sweep's walk over bank `b`.
pub open spec fn walk_pos(b: u16, pc: u16) -> int {
    if b == 0 {
        pc as int
    } else {
        b as int * 16384 + pc - 0x4000
    }
}

/// The whole banks of the image fit in it.
proof fn lemma_banks_fit(rom: Seq<u8>)
    ensures
        bank_count(rom) as int * 16384 <= rom.len(),
{
    let n: int = rom.len() as int / 16384;
    assert(n * 16384 <= rom.len());
    assert(bank_count(rom) as int <= n);
}

/// Decoded code is the decoding of the image and lies in ROM.
spec fn in_rom(rom: Seq<u8>, instrs: Map<u32, DecodedInstruction>) -> bool {
    forall|a: u32| #[trigger] instrs.dom().contains(a) ==> matches_rom(rom, a, instrs[a]) && instrs[a].pc < 0x8000
}

/// An instruction decoded after the walk passed it, and longer than one byte, lies inside
/// another one.
proof fn lemma_late_code_inside(
    rom: Seq<u8>,
    d1: Map<u32, DecodedInstruction>,
    d2: Map<u32, DecodedInstruction>,
    hi: int,
    p: u32,
)
    requires
        forall|a: u32| #[trigger] d1.dom().contains(a) ==> d2.dom().contains(a) && d2[a] == d1[a],
        in_rom(rom, d2),
        walk_below(rom, d1, hi),
        hi <= bank_count(rom) as int * 16384,
        d2.dom().contains(p),
        !d1.dom().contains(p),
        0x150 <= p < hi,
        d2[p].bytes@.len() >= 2,
    ensures
        inside_other(d2, p),
{
    if !inside_other(d2, p) {
        let inst = d2[p];
        assert(matches_rom(rom, p, inst));
        let off = rom_offset(inst.bank, inst.pc);
        assert(off == p as int);
        assert(rom.skip(off)[0] == rom[off]);
        assert(opcode_len(0x00) == 1 && opcode_len(0xFF) == 1);
        assert(sweep_candidate(rom, p));
        assert forall|y: u32| d1.dom().contains(y) implies !#[trigger] spans(d1[y], y, p) by {
            assert(!spans(d2[y], y, p));
        }
        assert(!inside_other(d1, p));
    }
}

/// Decoding more code keeps the walk's facts.
proof fn lemma_walk_grow(
    rom: Seq<u8>,
    d1: Map<u32, DecodedInstruction>,
    d2: Map<u32, DecodedInstruction>,
    starts: Set<u32>,
    lo: int,
    hi: int,
)
    requires
        forall|a: u32| #[trigger] d1.dom().contains(a) ==> d2.dom().contains(a) && d2[a] == d1[a],
        in_rom(rom, d2),
        0x150 <= lo,
        hi <= bank_count(rom) as int * 16384,
        walk_below(rom, d1, hi),
        walk_clear(d1, lo, hi),
        forall|s: u32| #[trigger] starts.contains(s) ==> s <= hi && sweep_start(rom, d1, s),
    ensures
        walk_below(rom, d2, hi),
        walk_clear(d2, lo, hi),
        forall|s: u32| #[trigger] starts.contains(s) ==> sweep_start(rom, d2, s),
{
    assert forall|p: u32| #[trigger] inside_other(d1, p) implies inside_other(d2, p) by {
        let y = choose|y: u32| d1.dom().contains(y) && #[trigger] spans(d1[y], y, p);
        assert(d2.dom().contains(y) && spans(d2[y], y, p));
    }
    assert forall|p: u32|
        0x150 <= p < hi && #[trigger] sweep_candidate(rom, p) && !inside_other(d2, p) && decodes_at(rom, p as int)
            implies d2.dom().contains(p) by {
        if !inside_other(d1, p) {
            assert(d1.dom().contains(p));
        }
    }
    assert forall|p: u32|
        #![trigger d2[p]]
        d2.dom().contains(p) && lo <= p < hi < p + d2[p].bytes@.len() implies inside_other(d2, p) by {
        if d1.dom().contains(p) {
            assert(inside_other(d1, p));
        } else {
            lemma_late_code_inside(rom, d1, d2, hi, p);
        }
    }
    assert forall|s: u32| #[trigger] starts.contains(s) implies sweep_start(rom, d2, s) by {
        assert(sweep_start(rom, d1, s));
        assert forall|p: u32|
            d2.dom().contains(p) && region_start(s) <= p && #[trigger] spans(d2[p], p, s) implies inside_other(d2, p) by {
            if d1.dom().contains(p) {
                assert(spans(d1[p], p, s));
                assert(inside_other(d1, p));
            } else {
                lemma_late_code_inside(rom, d1, d2, hi, p);
            }
        }
    }
}

/// Code at `a` is accounted for: a root, one of the sweep's `starts`, or a successor of a
/// decoded instruction.
pub open spec fn code_justified(
    rom: Seq<u8>,
    instrs: Map<u32, DecodedInstruction>,
    starts: Set<u32>,
    a: u32,
) -> bool {
    ||| is_root_entry(a)
    ||| starts.contains(a)
    ||| exists|x: u32| instrs.dom().contains(x) && #[trigger] successor_of(instrs[x], bank_count(rom), a)
}

/// A function entry at `a` is accounted for: a root, one of the sweep's `starts`, or a call
/// target or return address of a decoded call.
pub open spec fn entry_justified(
    rom: Seq<u8>,
    instrs: Map<u32, DecodedInstruction>,
    starts: Set<u32>,
    a: u32,
) -> bool {
    ||| is_root_entry(a)
    ||| starts.contains(a)
    ||| exists|x: u32| instrs.dom().contains(x) && #[trigger] call_entry_of(instrs[x], bank_count(rom), a)
}

/// A recorded jump target at `a` is a target of a decoded jump or branch.
pub open spec fn target_justified(rom: Seq<u8>, instrs: Map<u32, DecodedInstruction>, a: u32) -> bool {
    exists|x: u32| instrs.dom().contains(x) && #[trigger] jump_target_of(instrs[x], bank_count(rom), a)
}

/// `a` is the decoded target, seen from the bank of its source, of a decoded jump or branch.
pub open spec fn direct_target(inst: DecodedInstruction, a: u32) -> bool {
    match inst.flow {
        FlowControl::Jump(t) => t < 0x8000 && a == abs_addr_spec(inst.bank, t),
        FlowControl::Branch(t) => t < 0x8000 && a == abs_addr_spec(inst.bank, t),
        _ => false,
    }
}

/// `a` is decoded code in ROM that a decoded jump or branch leads to from another function,
/// function membership (see `owner`) taken with the entries other than `a`.
pub open spec fn promoted(instrs: Map<u32, DecodedInstruction>, entries: Set<u32>, a: u32) -> bool {
    &&& instrs.dom().contains(a)
    &&& a < 0x4000_0000
    &&& exists|x: u32|
        instrs.dom().contains(x) && #[trigger] direct_target(instrs[x], a) && owner(
            instrs.dom(),
            entries.remove(a),
            x,
        ) != owner(instrs.dom(), entries.remove(a), a)
}

/// Among the decoded entries at or below `y`, one at or above `d0` is the greatest.
proof fn lemma_greatest_entry(keys: Set<u32>, entries: Set<u32>, y: u32, d0: u32)
    requires
        keys.contains(d0),
        entries.contains(d0),
        d0 <= y,
    ensures
        exists|m: u32|
            keys.contains(m) && entries.contains(m) && m <= y && forall|d: u32|
                keys.contains(d) && entries.contains(d) && d <= y ==> d <= m,
    decreases y - d0,
{
    if exists|d: u32| keys.contains(d) && entries.contains(d) && d <= y && d > d0 {
        let d = choose|d: u32| keys.contains(d) && entries.contains(d) && d <= y && d > d0;
        lemma_greatest_entry(keys, entries, y, d);
    } else {
        assert(forall|d: u32| keys.contains(d) && entries.contains(d) && d <= y ==> d <= d0);
    }
}

/// `owner` is the greatest decoded entry at or below `y`, or 0x0100 when there is none.
proof fn lemma_owner_facts(keys: Set<u32>, entries: Set<u32>, y: u32)
    ensures
        (exists|d: u32| keys.contains(d) && entries.contains(d) && d <= y) ==> ({
            let o = owner(keys, entries, y);
            &&& keys.contains(o)
            &&& entries.contains(o)
            &&& o <= y
            &&& forall|d: u32| keys.contains(d) && entries.contains(d) && d <= y ==> d <= o
        }),
        !(exists|d: u32| keys.contains(d) && entries.contains(d) && d <= y) ==> owner(keys, entries, y)
            == 0x0100,
{
    reveal(owner);
    if exists|d: u32| keys.contains(d) && entries.contains(d) && d <= y {
        let d0 = choose|d: u32| keys.contains(d) && entries.contains(d) && d <= y;
        lemma_greatest_entry(keys, entries, y, d0);
    }
}

/// Two addresses that belong to different functions still do when more entries are added,
/// as long as the entry point stays an entry and `e` does not become one.
proof fn lemma_separation_grows(keys: Set<u32>, s1: Set<u32>, s2: Set<u32>, x: u32, e: u32)
    requires
        s1.subset_of(s2),
        s1.contains(0x0100),
        !s2.contains(e),
        owner(keys, s1, x) != owner(keys, s1, e),
    ensures
        owner(keys, s2, x) != owner(keys, s2, e),
{
    lemma_owner_facts(keys, s1, x);
    lemma_owner_facts(keys, s1, e);
    lemma_owner_facts(keys, s2, x);
    lemma_owner_facts(keys, s2, e);
    let (lo, hi) = if x < e { (x, e) } else { (e, x) };
    lemma_owner_facts(keys, s1, lo);
    lemma_owner_facts(keys, s1, hi);
    // Some entry of `s1` lies above `lo` and at or below `hi`.
    assert(exists|d: u32| keys.contains(d) && s1.contains(d) && lo < d <= hi) by {
        if !(exists|d: u32| keys.contains(d) && s1.contains(d) && lo < d <= hi) {
            if exists|d: u32| keys.contains(d) && s1.contains(d) && d <= lo {
                let ol = owner(keys, s1, lo);
                let oh = owner(keys, s1, hi);
                assert(oh <= lo);
                assert(ol == oh);
            }
        }
    }
    let d = choose|d: u32| keys.contains(d) && s1.contains(d) && lo < d <= hi;
    assert(s2.contains(d));
}

/// Growing the decoded instructions keeps every justification.
proof fn lemma_justified_grow(
    rom: Seq<u8>,
    i1: Map<u32, DecodedInstruction>,
    s1: Set<u32>,
    i2: Map<u32, DecodedInstruction>,
    s2: Set<u32>,
)
    requires
        forall|a: u32| #[trigger] i1.dom().contains(a) ==> i2.dom().contains(a) && i2[a] == i1[a],
        s1.subset_of(s2),
    ensures
        forall|a: u32| #[trigger] code_justified(rom, i1, s1, a) ==> code_justified(rom, i2, s2, a),
        forall|a: u32| #[trigger] entry_justified(rom, i1, s1, a) ==> entry_justified(rom, i2, s2, a),
        forall|a: u32| #[trigger] target_justified(rom, i1, a) ==> target_justified(rom, i2, a),
{
    let nb = bank_count(rom);
    assert forall|a: u32| #[trigger] code_justified(rom, i1, s1, a) implies code_justified(rom, i2, s2, a) by {
        if exists|x: u32| i1.dom().contains(x) && #[trigger] successor_of(i1[x], nb, a) {
            let x = choose|x: u32| i1.dom().contains(x) && #[trigger] successor_of(i1[x], nb, a);
            assert(i2.dom().contains(x) && successor_of(i2[x], nb, a));
        }
    }
    assert forall|a: u32| #[trigger] entry_justified(rom, i1, s1, a) implies entry_justified(rom, i2, s2, a) by {
        if exists|x: u32| i1.dom().contains(x) && #[trigger] call_entry_of(i1[x], nb, a) {
            let x = choose|x: u32| i1.dom().contains(x) && #[trigger] call_entry_of(i1[x], nb, a);
            assert(i2.dom().contains(x) && call_entry_of(i2[x], nb, a));
        }
    }
    assert forall|a: u32| #[trigger] target_justified(rom, i1, a) implies target_justified(rom, i2, a) by {
        let x = choose|x: u32| i1.dom().contains(x) && #[trigger] jump_target_of(i1[x], nb, a);
        assert(i2.dom().contains(x) && jump_target_of(i2[x], nb, a));
    }
}

/// Everything the exploration has found is accounted for: decoded code and queued start
/// points by where they came from, function entries and jump targets likewise.
spec fn accounted(
    rom: Seq<u8>,
    instrs: Map<u32, DecodedInstruction>,
    starts: Set<u32>,
    entries: Set<u32>,
    targets: Set<u32>,
    q: Seq<(u16, u16, bool)>,
) -> bool {
    &&& forall|a: u32| #[trigger] instrs.dom().contains(a) ==> code_justified(rom, instrs, starts, a)
    &&& forall|i: int|
        #![trigger q[i]]
        0 <= i < q.len() ==> code_justified(rom, instrs, starts, abs_addr_spec(q[i].0, q[i].1)) && (q[i].2
            ==> entry_justified(rom, instrs, starts, abs_addr_spec(q[i].0, q[i].1)))
    &&& forall|e: u32| #[trigger] entries.contains(e) ==> entry_justified(rom, instrs, starts, e)
    &&& forall|t: u32| #[trigger] targets.contains(t) ==> target_justified(rom, instrs, t)
}

/// A jump or branch target queued or recorded for the instruction stored under `abs` is
/// accounted for by it.
proof fn lemma_jump_item_justified(
    rom: Seq<u8>,
    instrs: Map<u32, DecodedInstruction>,
    starts: Set<u32>,
    abs: u32,
    bank: u16,
    pc: u16,
    t: u16,
    nb: u16,
    b: u16,
)
    requires
        nb == bank_count(rom),
        instrs.dom().contains(abs),
        instrs[abs].bank == norm_bank(bank, pc),
        instrs[abs].flow == FlowControl::Jump(t) || instrs[abs].flow == FlowControl::Branch(t),
        t < 0x8000,
        push_banks(bank, t, nb, b),
    ensures
        code_justified(rom, instrs, starts, abs_addr_spec(b, t)),
        target_justified(rom, instrs, abs_addr_spec(b, t)),
{
    let a = abs_addr_spec(b, t);
    lemma_pushed_target_at(bank, pc, t, nb, b);
    assert(jump_target_of(instrs[abs], nb, a));
    assert(successor_of(instrs[abs], nb, a));
    assert(jump_target_of(instrs[abs], nb, a));
}

/// A call target or return address queued for the call stored under `abs` is accounted
/// for by it, as code and as a function entry.
proof fn lemma_call_item_justified(
    rom: Seq<u8>,
    instrs: Map<u32, DecodedInstruction>,
    starts: Set<u32>,
    abs: u32,
    bank: u16,
    pc: u16,
    next: u16,
    t: u16,
    nb: u16,
    item: (u16, u16, bool),
)
    requires
        nb == bank_count(rom),
        instrs.dom().contains(abs),
        instrs[abs].bank == norm_bank(bank, pc),
        instrs[abs].flow == FlowControl::Call(t),
        next == next_pc(instrs[abs]),
        (t < 0x8000 && push_banks(bank, t, nb, item.0) && item.1 == t) || (next < 0x8000 && item.0
            == bank && item.1 == next),
    ensures
        code_justified(rom, instrs, starts, abs_addr_spec(item.0, item.1)),
        entry_justified(rom, instrs, starts, abs_addr_spec(item.0, item.1)),
{
    let a = abs_addr_spec(item.0, item.1);
    let inst = instrs[abs];
    if t < 0x8000 && push_banks(bank, t, nb, item.0) && item.1 == t {
        lemma_pushed_target_at(bank, pc, t, nb, item.0);
    } else {
        assert(abs_addr_spec(inst.bank, next) == abs_addr_spec(bank, next));
        assert(falls_into(inst, a));
    }
    assert(successor_of(inst, nb, a));
    assert(call_entry_of(inst, nb, a));
}

/// Queuing and recording the targets of the jump or branch stored under `abs` keeps
/// everything accounted for.
proof fn lemma_jump_pushes_accounted(
    rom: Seq<u8>,
    instrs: Map<u32, DecodedInstruction>,
    starts: Set<u32>,
    entries: Set<u32>,
    j0: Set<u32>,
    j1: Set<u32>,
    q0: Seq<(u16, u16, bool)>,
    q1: Seq<(u16, u16, bool)>,
    abs: u32,
    bank: u16,
    pc: u16,
    t: u16,
    nb: u16,
)
    requires
        nb == bank_count(rom),
        accounted(rom, instrs, starts, entries, j0, q0),
        instrs.dom().contains(abs),
        instrs[abs].bank == norm_bank(bank, pc),
        instrs[abs].flow == FlowControl::Jump(t) || instrs[abs].flow == FlowControl::Branch(t),
        t < 0x8000,
        q0.len() <= q1.len(),
        forall|i: int| 0 <= i < q0.len() ==> #[trigger] q1[i] == q0[i],
        forall|i: int| q0.len() <= i < q1.len() ==> push_banks(bank, t, nb, (#[trigger] q1[i]).0)
            && q1[i].1 == t && !q1[i].2,
        forall|x: u32| #[trigger] j1.contains(x) ==> j0.contains(x) || exists|b: u16|
            #[trigger] push_banks(bank, t, nb, b) && x == abs_addr_spec(b, t),
    ensures
        accounted(rom, instrs, starts, entries, j1, q1),
{
    assert forall|i: int| #![trigger q1[i]] 0 <= i < q1.len() implies code_justified(
        rom,
        instrs, starts,
        abs_addr_spec(q1[i].0, q1[i].1),
    ) && (q1[i].2 ==> entry_justified(rom, instrs, starts, abs_addr_spec(q1[i].0, q1[i].1))) by {
        if i < q0.len() {
            assert(q1[i] == q0[i]);
        } else {
            lemma_jump_item_justified(rom, instrs, starts, abs, bank, pc, t, nb, q1[i].0);
        }
    }
    assert forall|x: u32| #[trigger] j1.contains(x) implies target_justified(rom, instrs, x) by {
        if !j0.contains(x) {
            let b = choose|b: u16| #[trigger] push_banks(bank, t, nb, b) && x == abs_addr_spec(b, t);
            lemma_jump_item_justified(rom, instrs, starts, abs, bank, pc, t, nb, b);
        }
    }
}

/// A target queued from trace bank `bank` is a target of the instruction recorded there.
proof fn lemma_pushed_target_at(bank: u16, pc: u16, t: u16, nb: u16, b: u16)
    requires
        push_banks(bank, t, nb, b),
    ensures
        target_at(norm_bank(bank, pc), t, nb, abs_addr_spec(b, t)),
{
    let ib = norm_bank(bank, pc);
    if bank == 0 && t >= 0x4000 {
        assert(ib <= 1);
        assert(1 <= b < nb && abs_addr_spec(b, t) == abs_addr_spec(b, t));
    } else {
        assert(abs_addr_spec(bank, t) == abs_addr_spec(ib, t));
    }
}

proof fn lemma_fanout_mono(bank: u16, t: u16, nb: u16, p1: spec_fn(u32) -> bool, p2: spec_fn(u32) -> bool)
    requires
        fanout_holds(bank, t, nb, p1),
        forall|a: u32| #[trigger] p1(a) ==> p2(a),
    ensures
        fanout_holds(bank, t, nb, p2),
{
    if t < 0x4000 || bank >= 2 {
    } else if bank == 0 {
        assert forall|b: u16| 1 <= b < nb implies #[trigger] p2(abs_addr_spec(b, t)) by {
            assert(p1(abs_addr_spec(b, t)));
        }
    } else {
        if !p1(abs_addr_spec(1, t)) {
            assert forall|b: u16| 1 <= b < nb implies #[trigger] p2(abs_addr_spec(b, t)) by {
                assert(p1(abs_addr_spec(b, t)));
            }
        }
    }
}

proof fn lemma_successors_mono(
    inst: DecodedInstruction,
    nb: u16,
    r1: spec_fn(u32) -> bool,
    e1: spec_fn(u32) -> bool,
    j1: spec_fn(u32) -> bool,
    r2: spec_fn(u32) -> bool,
    e2: spec_fn(u32) -> bool,
    j2: spec_fn(u32) -> bool,
)
    requires
        successors_hold(inst, nb, r1, e1, j1),
        forall|a: u32| #[trigger] r1(a) ==> r2(a),
        forall|a: u32| #[trigger] e1(a) ==> e2(a),
        forall|a: u32| #[trigger] j1(a) ==> j2(a),
    ensures
        successors_hold(inst, nb, r2, e2, j2),
{
    match inst.flow {
        FlowControl::Jump(t) => {
            if t < 0x8000 {
                lemma_fanout_mono(inst.bank, t, nb, r1, r2);
                lemma_fanout_mono(inst.bank, t, nb, j1, j2);
            }
        },
        FlowControl::Branch(t) => {
            if t < 0x8000 {
                lemma_fanout_mono(inst.bank, t, nb, r1, r2);
                lemma_fanout_mono(inst.bank, t, nb, j1, j2);
            }
        },
        FlowControl::Call(t) => {
            if t < 0x8000 {
                lemma_fanout_mono(inst.bank, t, nb, r1, r2);
                lemma_fanout_mono(inst.bank, t, nb, e1, e2);
            }
        },
        _ => {},
    }
}

/// Growing what is explored, queued, entered or recorded keeps the obligations met; the
/// address that was about to be traced may be dropped once it is explored.
proof fn lemma_obligations_grow(
    rom: Seq<u8>,
    i1: Map<u32, DecodedInstruction>,
    k1: Set<u32>,
    e1: Set<u32>,
    t1: Set<u32>,
    q1: Seq<(u16, u16, bool)>,
    c1: Option<u32>,
    i2: Map<u32, DecodedInstruction>,
    k2: Set<u32>,
    e2: Set<u32>,
    t2: Set<u32>,
    q2: Seq<(u16, u16, bool)>,
    c2: Option<u32>,
)
    requires
        forall|a: u32|
            #[trigger] i1.dom().contains(a) ==> successors_hold(
                i1[a],
                bank_count(rom),
                reached_fn(rom, k1, q1, c1),
                entered_fn(e1, q1),
                member_fn(t1),
            ),
        forall|a: u32| #[trigger] i1.dom().contains(a) ==> i2.dom().contains(a) && i2[a] == i1[a],
        k1.subset_of(k2),
        e1.subset_of(e2),
        t1.subset_of(t2),
        q1.len() <= q2.len(),
        forall|i: int| 0 <= i < q1.len() ==> #[trigger] q2[i] == q1[i],
        c1 matches Some(c) ==> (c2 == c1 || explored(rom, k2, c)),
        forall|r: u32| #[trigger] is_root_entry(r) ==> reached_fn(rom, k1, q1, c1)(r),
    ensures
        forall|a: u32| #[trigger] i1.dom().contains(a) ==> successors_hold(
            i2[a],
            bank_count(rom),
            reached_fn(rom, k2, q2, c2),
            entered_fn(e2, q2),
            member_fn(t2),
        ),
        forall|r: u32| #[trigger] is_root_entry(r) ==> reached_fn(rom, k2, q2, c2)(r),
{
    let nb = bank_count(rom);
    let r1 = reached_fn(rom, k1, q1, c1);
    let r2 = reached_fn(rom, k2, q2, c2);
    let n1 = entered_fn(e1, q1);
    let n2 = entered_fn(e2, q2);
    assert forall|a: u32| #[trigger] r1(a) implies r2(a) by {
        if queued(q1, a) {
            let i = choose|i: int| 0 <= i < q1.len() && abs_addr_spec(#[trigger] q1[i].0, q1[i].1) == a;
            assert(q2[i] == q1[i]);
        }
    }
    assert forall|a: u32| #[trigger] n1(a) implies n2(a) by {
        if queued_call(q1, a) {
            let i = choose|i: int| 0 <= i < q1.len() && abs_addr_spec(#[trigger] q1[i].0, q1[i].1) == a && q1[i].2;
            assert(q2[i] == q1[i]);
        }
    }
    assert forall|a: u32| #[trigger] i1.dom().contains(a) implies successors_hold(
        i2[a],
        nb,
        r2,
        n2,
        member_fn(t2),
    ) by {
        lemma_successors_mono(i1[a], nb, r1, n1, member_fn(t1), r2, n2, member_fn(t2));
    }
}

/// Taking the first start point off the queue, and entering it as a function when it is a
/// function start, leaves it as the position about to be traced.
proof fn lemma_obligations_pop(
    rom: Seq<u8>,
    instrs: Map<u32, DecodedInstruction>,
    e1: Set<u32>,
    e2: Set<u32>,
    targets: Set<u32>,
    q: Seq<(u16, u16, bool)>,
    a: u32,
    f: bool,
)
    requires
        q.len() > 0,
        a == abs_addr_spec(q[0].0, q[0].1),
        f == q[0].2,
        obligations_ok(rom, instrs, e1, targets, q, None),
        e1.subset_of(e2),
        f ==> e2.contains(a),
    ensures
        obligations_ok(rom, instrs, e2, targets, q.subrange(1, q.len() as int), Some(a)),
{
    let nb = bank_count(rom);
    let q2 = q.subrange(1, q.len() as int);
    let r1 = reached_fn(rom, instrs.dom(), q, None);
    let r2 = reached_fn(rom, instrs.dom(), q2, Some(a));
    let n1 = entered_fn(e1, q);
    let n2 = entered_fn(e2, q2);
    assert forall|x: u32| #[trigger] r1(x) implies r2(x) by {
        if queued(q, x) && x != a {
            let i = choose|i: int| 0 <= i < q.len() && abs_addr_spec(#[trigger] q[i].0, q[i].1) == x;
            assert(i != 0);
            assert(q2[i - 1] == q[i]);
        }
    }
    assert forall|x: u32| #[trigger] n1(x) implies n2(x) by {
        if queued_call(q, x) && !e2.contains(x) {
            let i = choose|i: int| 0 <= i < q.len() && abs_addr_spec(#[trigger] q[i].0, q[i].1) == x && q[i].2;
            assert(i != 0);
            assert(q2[i - 1] == q[i]);
        }
    }
    assert forall|x: u32| #[trigger] instrs.dom().contains(x) implies successors_hold(
        instrs[x],
        nb,
        r2,
        n2,
        member_fn(targets),
    ) by {
        lemma_successors_mono(instrs[x], nb, r1, n1, member_fn(targets), r2, n2, member_fn(targets));
    }
    assert forall|r: u32| #[trigger] is_root_entry(r) implies r2(r) by {
        assert(r1(r));
    }
}

/// A finite set of 32-bit values has at most 2^32 elements.
proof fn lemma_u32_set_len(s: Set<u32>)
    requires
        s.finite(),
    ensures
        s.len() <= 0x1_0000_0000,
{
    broadcast use vstd::set_lib::range_set_properties;
    let r = Set::<u32>::range(0, u32::MAX);
    assert(r.finite() && r.len() == u32::MAX);
    let full = r.insert(u32::MAX);
    assert(s.subset_of(full));
    vstd::set_lib::lemma_len_subset(s, full);
}

/// The bank set that a target pushed from trace bank `bank` is queued in.
pub open spec fn push_banks(bank: u16, t: u16, nb: u16, b: u16) -> bool {
    if bank == 0 && t >= 0x4000 {
        1 <= b < nb
    } else {
        b == bank
    }
}

/// `(b, t, f)` was queued at or after index `from` of `q`.
pub open spec fn pushed(q: Seq<(u16, u16, bool)>, from: int, b: u16, t: u16, f: bool) -> bool {
    exists|i: int| from <= i < q.len() && q[i] == (b, t, f)
}

proof fn lemma_pushed_push(q: Seq<(u16, u16, bool)>, from: int, b: u16, t: u16, f: bool, x: (u16, u16, bool))
    requires
        0 <= from,
        pushed(q, from, b, t, f) || (x == (b, t, f) && from <= q.len()),
    ensures
        pushed(q.push(x), from, b, t, f),
{
    if pushed(q, from, b, t, f) {
        let i = choose|i: int| from <= i < q.len() && q[i] == (b, t, f);
        assert(q.push(x)[i] == q[i]);
    } else {
        assert(q.push(x)[q.len() as int] == x);
    }
}

/// The pending trace position, when it lies in ROM.
pub open spec fn cur_of(bank: u16, pc: u16) -> Option<u32> {
    if pc < 0x8000 {
        Some(abs_addr_spec(bank, pc))
    } else {
        None
    }
}

proof fn lemma_fanout_from_pushes(bank: u16, ib: u16, pc: u16, t: u16, nb: u16, p: spec_fn(u32) -> bool)
    requires
        ib == norm_bank(bank, pc),
        t < 0x8000,
        forall|b: u16| push_banks(bank, t, nb, b) ==> #[trigger] p(abs_addr_spec(b, t)),
    ensures
        fanout_holds(ib, t, nb, p),
{
    if bank == 0 && t >= 0x4000 {
        assert forall|b: u16| 1 <= b < nb implies #[trigger] p(abs_addr_spec(b, t)) by {
            assert(push_banks(bank, t, nb, b));
        }
    } else {
        assert(push_banks(bank, t, nb, bank));
        assert(abs_addr_spec(bank, t) == abs_addr_spec(ib, t));
    }
}

/// State of the exploration: what has been decoded, the function entries and jump targets
/// found so far, and the start points still to trace as (bank, pc, is a function start).
struct Explorer {
    instructions: BTreeMap<u32, DecodedInstruction>,
    function_entries: BTreeSet<u32>,
    jump_targets: BTreeSet<u32>,
    queue: VecDeque<(u16, u16, bool)>,
    /// The positions the sweep has started traces at.
    starts: Ghost<Set<u32>>,
}

impl Explorer {
    spec fn sound(&self, rom: Seq<u8>) -> bool {
        &&& forall|a: u32| #[trigger] self.instructions@.dom().contains(a) ==> matches_rom(
            rom,
            a,
            self.instructions@[a],
        )
        &&& forall|i: int| 0 <= i < self.queue@.len() ==> (#[trigger] self.queue@[i]).1 < 0x8000
        &&& forall|a: u32| is_root_entry(a) ==> #[trigger] self.function_entries@.contains(a)
        &&& forall|a: u32| #[trigger] self.function_entries@.contains(a) ==> a < 0x4000_0000
        &&& forall|a: u32| #[trigger] self.jump_targets@.contains(a) ==> a < 0x4000_0000
        &&& forall|a: u32| #[trigger] self.instructions@.dom().contains(a) ==> self.instructions@[a].pc < 0x8000
            && (self.instructions@[a].pc >= 0x4000 ==> self.instructions@[a].bank >= 1)
    }

    /// Everything found is accounted for (see `accounted`).
    spec fn bounded(&self, rom: Seq<u8>) -> bool {
        accounted(rom, self.instructions@, self.starts@, self.function_entries@, self.jump_targets@, self.queue@)
    }

    spec fn inv(&self, rom: Seq<u8>, cur: Option<u32>) -> bool {
        &&& self.sound(rom)
        &&& self.bounded(rom)
        &&& obligations_ok(
            rom,
            self.instructions@,
            self.function_entries@,
            self.jump_targets@,
            self.queue@,
            cur,
        )
    }

    /// Queues target `t` of an instruction traced in `bank`, in every switchable bank when
    /// a bank-0 instruction targets the switchable window; records it as a jump target when
    /// `record` holds.
    fn push_targets(&mut self, bank: u16, t: u16, is_func: bool, record: bool, nb: u16)
        requires
            t < 0x8000,
        ensures
            final(self).instructions@ == old(self).instructions@,
            final(self).function_entries@ == old(self).function_entries@,
            final(self).starts == old(self).starts,
            old(self).jump_targets@.subset_of(final(self).jump_targets@),
            old(self).queue@.len() <= final(self).queue@.len(),
            forall|i: int| 0 <= i < old(self).queue@.len() ==> #[trigger] final(self).queue@[i] == old(self).queue@[i],
            forall|i: int| old(self).queue@.len() <= i < final(self).queue@.len() ==> (#[trigger] final(self).queue@[i]).1 == t
                && final(self).queue@[i].2 == is_func,
            forall|b: u16| #[trigger] push_banks(bank, t, nb, b) ==> pushed(final(self).queue@, old(self).queue@.len() as int, b, t, is_func)
                && (record ==> final(self).jump_targets@.contains(abs_addr_spec(b, t))),
            forall|i: int| old(self).queue@.len() <= i < final(self).queue@.len() ==> push_banks(bank, t, nb, (#[trigger] final(self).queue@[i]).0),
            forall|x: u32| #[trigger] final(self).jump_targets@.contains(x) ==> old(self).jump_targets@.contains(x)
                || (record && exists|b: u16| #[trigger] push_banks(bank, t, nb, b) && x == abs_addr_spec(b, t)),
    {
        proof {
            lemma_u32_keys_ordered();
        }
        let ghost q0 = self.queue@;
        if bank == 0 && t >= 0x4000 {
            let mut b: u16 = 1;
            while b < nb
                invariant
                    1 <= b,
                    self.instructions@ == old(self).instructions@,
                    self.function_entries@ == old(self).function_entries@,
                    self.starts == old(self).starts,
                    old(self).jump_targets@.subset_of(self.jump_targets@),
                    q0 == old(self).queue@,
                    q0.len() <= self.queue@.len(),
                    forall|i: int| 0 <= i < q0.len() ==> #[trigger] self.queue@[i] == q0[i],
                    forall|i: int| q0.len() <= i < self.queue@.len() ==> (#[trigger] self.queue@[i]).1 == t
                        && self.queue@[i].2 == is_func,
                    forall|c: u16| 1 <= c < b ==> #[trigger] pushed(self.queue@, q0.len() as int, c, t, is_func)
                        && (record ==> self.jump_targets@.contains(abs_addr_spec(c, t))),
                    forall|i: int| q0.len() <= i < self.queue@.len() ==> push_banks(bank, t, nb, (#[trigger] self.queue@[i]).0),
                    forall|x: u32| #[trigger] self.jump_targets@.contains(x) ==> old(self).jump_targets@.contains(x)
                        || (record && exists|c: u16| #[trigger] push_banks(bank, t, nb, c) && x == abs_addr_spec(c, t)),
                    bank == 0 && t >= 0x4000,
                decreases nb - b,
            {
                proof {
                    lemma_u32_keys_ordered();
                }
                let ghost qb = self.queue@;
                let ghost jb = self.jump_targets@;
                if record {
                    let target_abs = get_abs_addr(b, t);
                    self.jump_targets.insert(target_abs);
                }
                self.queue.push_back((b, t, is_func));
                proof {
                    assert(push_banks(bank, t, nb, b));
                    assert forall|c: u16| 1 <= c < b + 1 implies #[trigger] pushed(self.queue@, q0.len() as int, c, t, is_func)
                        && (record ==> self.jump_targets@.contains(abs_addr_spec(c, t))) by {
                        if c < b {
                            assert(pushed(qb, q0.len() as int, c, t, is_func));
                            if record {
                                assert(jb.contains(abs_addr_spec(c, t)));
                            }
                        }
                        lemma_pushed_push(qb, q0.len() as int, c, t, is_func, (b, t, is_func));
                    }
                }
                b = b + 1;
            }
        } else {
            assert(push_banks(bank, t, nb, bank));
            if record {
                let target_abs = get_abs_addr(bank, t);
                self.jump_targets.insert(target_abs);
            }
            let ghost qb = self.queue@;
            self.queue.push_back((bank, t, is_func));
            proof {
                lemma_pushed_push(qb, q0.len() as int, bank, t, is_func, (bank, t, is_func));
            }
        }
    }
    /// After the instruction traced at `pc` of `bank` has been stored under `abs`, queues
    /// its targets and says where tracing goes on: `Some(next)` for flows that fall through.
    fn follow(
        &mut self,
        Ghost(rom): Ghost<Seq<u8>>,
        Ghost(before): Ghost<Map<u32, DecodedInstruction>>,
        abs: u32,
        bank: u16,
        pc: u16,
        next: u16,
        flow: FlowControl,
        nb: u16,
    ) -> (r: Option<u16>)
        requires
            nb == bank_count(rom),
            old(self).sound(rom),
            old(self).bounded(rom),
            !before.dom().contains(abs),
            old(self).instructions@ == before.insert(abs, old(self).instructions@[abs]),
            old(self).instructions@[abs].flow == flow,
            old(self).instructions@[abs].bank == norm_bank(bank, pc),
            next == next_pc(old(self).instructions@[abs]),
            abs == abs_addr_spec(bank, pc),
            forall|a: u32| #[trigger] before.dom().contains(a) ==> successors_hold(
                before[a],
                bank_count(rom),
                reached_fn(rom, old(self).instructions@.dom(), old(self).queue@, None),
                entered_fn(old(self).function_entries@, old(self).queue@),
                member_fn(old(self).jump_targets@),
            ),
            forall|r: u32| #[trigger] is_root_entry(r) ==> reached_fn(rom, old(self).instructions@.dom(), old(self).queue@, None)(r),
        ensures
            r == (if falls_through(flow) { Some(next) } else { None::<u16> }),
            final(self).inv(rom, match r { Some(n) => cur_of(bank, n), None => None }),
            final(self).instructions@ == old(self).instructions@,
            final(self).function_entries@ == old(self).function_entries@,
            final(self).starts == old(self).starts,
            old(self).jump_targets@.subset_of(final(self).jump_targets@),
            old(self).queue@.len() <= final(self).queue@.len(),
            forall|i: int| 0 <= i < old(self).queue@.len() ==> #[trigger] final(self).queue@[i] == old(self).queue@[i],
    {
        let ghost q0 = self.queue@;
        let ghost j0 = self.jump_targets@;
        let ghost e0 = self.function_entries@;
        let ghost inst = self.instructions@[abs];
        let ghost ib = inst.bank;
        let ghost k0 = self.instructions@.dom();
        let r = match flow {
            FlowControl::Normal | FlowControl::Halt => Some(next),
            FlowControl::Jump(t) => {
                if t < 0x8000 {
                    self.push_targets(bank, t, false, true, nb);
                    proof {
                        lemma_jump_pushes_accounted(rom, self.instructions@, self.starts@, self.function_entries@,
                            j0, self.jump_targets@, q0, self.queue@, abs, bank, pc, t, nb);
                    }
                }
                None
            },
            FlowControl::JumpIndirect | FlowControl::Return => None,
            FlowControl::Branch(t) => {
                if t < 0x8000 {
                    self.push_targets(bank, t, false, true, nb);
                    proof {
                        lemma_jump_pushes_accounted(rom, self.instructions@, self.starts@, self.function_entries@,
                            j0, self.jump_targets@, q0, self.queue@, abs, bank, pc, t, nb);
                    }
                }
                Some(next)
            },
            FlowControl::Call(t) => {
                if t < 0x8000 {
                    self.push_targets(bank, t, true, false, nb);
                }
                let ghost qa = self.queue@;
                proof {
                    let instrs = self.instructions@;
                    let q = self.queue@;
                    assert forall|i: int| #![trigger q[i]] 0 <= i < q.len() implies code_justified(
                        rom,
                        instrs, self.starts@,
                        abs_addr_spec(q[i].0, q[i].1),
                    ) && (q[i].2 ==> entry_justified(rom, instrs, self.starts@, abs_addr_spec(q[i].0, q[i].1))) by {
                        if i < q0.len() {
                            assert(q[i] == q0[i]);
                        } else {
                            lemma_call_item_justified(rom, instrs, self.starts@, abs, bank, pc, next, t, nb, q[i]);
                        }
                    }
                    assert forall|x: u32| #[trigger] self.jump_targets@.contains(x) implies target_justified(rom, instrs, x) by {
                        assert(j0.contains(x));
                    }
                    assert(self.bounded(rom));
                }
                if next < 0x8000 {
                    let ghost q1 = self.queue@;
                    self.queue.push_back((bank, next, true));
                    proof {
                        let instrs = self.instructions@;
                        let q = self.queue@;
                        assert forall|i: int| #![trigger q[i]] 0 <= i < q.len() implies code_justified(
                            rom,
                            instrs, self.starts@,
                            abs_addr_spec(q[i].0, q[i].1),
                        ) && (q[i].2 ==> entry_justified(rom, instrs, self.starts@, abs_addr_spec(q[i].0, q[i].1))) by {
                            if i < q1.len() {
                                assert(q[i] == q1[i]);
                            } else {
                                lemma_call_item_justified(rom, instrs, self.starts@, abs, bank, pc, next, t, nb, q[i]);
                            }
                        }
                        assert(self.bounded(rom));
                        assert(self.queue@[q1.len() as int] == (bank, next, true));
                        assert forall|i: int| 0 <= i < q1.len() implies #[trigger] self.queue@[i] == q1[i] by {}
                        assert forall|b: u16| #[trigger] push_banks(bank, t, nb, b) && t < 0x8000 implies pushed(self.queue@, q0.len() as int, b, t, true) by {
                            lemma_pushed_push(q1, q0.len() as int, b, t, true, (bank, next, true));
                        }
                    }
                }
                Some(next)
            },
        };
        proof {
            let q = self.queue@;
            let cur = match r { Some(n) => cur_of(bank, n), None => None::<u32> };
            let instrs = self.instructions@;
            let reached = reached_fn(rom, instrs.dom(), q, cur);
            let entered = entered_fn(e0, q);
            let recorded = member_fn(self.jump_targets@);
            lemma_obligations_grow(rom, before, k0, e0, j0, q0, None,
                    instrs, instrs.dom(), e0, self.jump_targets@, q, cur);
            // The new instruction's own successors.
            assert forall|b: u16, t: u16, f: bool| #[trigger] pushed(q, q0.len() as int, b, t, f) implies reached(abs_addr_spec(b, t))
                && (f ==> entered(abs_addr_spec(b, t))) by {
                let i = choose|i: int| q0.len() <= i < q.len() && q[i] == (b, t, f);
                assert(abs_addr_spec(q[i].0, q[i].1) == abs_addr_spec(b, t));
            }
            if falls_through(flow) && next < 0x8000 {
                assert(abs_addr_spec(ib, next) == abs_addr_spec(bank, next));
                assert(cur == Some(abs_addr_spec(bank, next)));
            }
            match flow {
                FlowControl::Jump(t) => {
                    if t < 0x8000 {
                        lemma_fanout_from_pushes(bank, ib, pc, t, nb, reached);
                        lemma_fanout_from_pushes(bank, ib, pc, t, nb, recorded);
                    }
                },
                FlowControl::Branch(t) => {
                    if t < 0x8000 {
                        lemma_fanout_from_pushes(bank, ib, pc, t, nb, reached);
                        lemma_fanout_from_pushes(bank, ib, pc, t, nb, recorded);
                    }
                },
                FlowControl::Call(t) => {
                    if t < 0x8000 {
                        assert forall|b: u16| push_banks(bank, t, nb, b) implies #[trigger] entered(abs_addr_spec(b, t)) by {
                            assert(pushed(q, q0.len() as int, b, t, true));
                        }
                        assert forall|b: u16| push_banks(bank, t, nb, b) implies #[trigger] reached(abs_addr_spec(b, t)) by {
                            assert(pushed(q, q0.len() as int, b, t, true));
                        }
                        lemma_fanout_from_pushes(bank, ib, pc, t, nb, reached);
                        lemma_fanout_from_pushes(bank, ib, pc, t, nb, entered);
                    }
                    if next < 0x8000 {
                        assert(abs_addr_spec(ib, next) == abs_addr_spec(bank, next));
                        assert(pushed(q, q0.len() as int, bank, next, true));
                    }
                },
                _ => {},
            }
            assert(successors_hold(inst, nb, reached, entered, recorded));
            assert(obligations_ok(rom, instrs, e0, self.jump_targets@, q, cur));
        }
        r
    }

    /// Decodes the instruction at `pc` of `bank` if it is new and in the image, and follows
    /// it. `Some(next)` says where the trace goes on.
    fn step(&mut self, rom: &[u8], bank: u16, pc: u16, nb: u16) -> (r: Option<u16>)
        requires
            nb == bank_count(rom@),
            old(self).inv(rom@, cur_of(bank, pc)),
            code_justified(rom@, old(self).instructions@, old(self).starts@, abs_addr_spec(bank, pc)),
        ensures
            final(self).inv(rom@, match r { Some(n) => cur_of(bank, n), None => None }),
            forall|a: u32| #[trigger] old(self).instructions@.dom().contains(a) ==> final(self).instructions@.dom().contains(a)
                && final(self).instructions@[a] == old(self).instructions@[a],
            final(self).function_entries@ == old(self).function_entries@,
            final(self).starts == old(self).starts,
            old(self).jump_targets@.subset_of(final(self).jump_targets@),
            old(self).queue@.len() <= final(self).queue@.len(),
            forall|i: int| 0 <= i < old(self).queue@.len() ==> #[trigger] final(self).queue@[i] == old(self).queue@[i],
            final(self).instructions@.dom().len() == old(self).instructions@.dom().len() + 1
                || (r is None && final(self).queue@ == old(self).queue@
                    && final(self).instructions@ == old(self).instructions@),
            r is Some ==> final(self).instructions@.dom().len() == old(self).instructions@.dom().len() + 1,
            pc < 0x8000 ==> explored(rom@, final(self).instructions@.dom(), abs_addr_spec(bank, pc)),
            r matches Some(n) ==> final(self).instructions@.dom().contains(abs_addr_spec(bank, pc))
                && falls_into(final(self).instructions@[abs_addr_spec(bank, pc)], abs_addr_spec(bank, n)),
    {
        proof {
            lemma_u32_keys_ordered();
        }
        let ghost instrs1 = self.instructions@;
        let ghost e0 = self.function_entries@;
        let ghost targets1 = self.jump_targets@;
        let ghost queue1 = self.queue@;
        let abs = get_abs_addr(bank, pc);
        if self.instructions.contains_key(&abs) {
            proof {
                lemma_obligations_grow(rom@, instrs1, instrs1.dom(), e0, targets1, queue1, cur_of(bank, pc),
                    self.instructions@, self.instructions@.dom(), e0, self.jump_targets@, self.queue@, None);
            }
            return None;
        }
        if pc >= 0x8000 {
            return None;
        }
        let off: usize = if pc < 0x4000 {
            pc as usize
        } else {
            let b: u16 = if bank == 0 { 1 } else { bank };
            (b as usize) * BANK_SIZE + (pc - 0x4000) as usize
        };
        if off >= rom.len() {
            proof {
                if pc < 0x8000 {
                    assert(!decodes_at(rom@, abs as int));
                }
                lemma_obligations_grow(rom@, instrs1, instrs1.dom(), e0, targets1, queue1, cur_of(bank, pc),
                    self.instructions@, self.instructions@.dom(), e0, self.jump_targets@, self.queue@, None);
            }
            return None;
        }
        let ib: u16 = if pc >= 0x4000 && pc < 0x8000 && bank == 0 { 1 } else { bank };
        let decoded = decode_instruction(&rom[off..rom.len()], pc, ib);
        let inst = match decoded {
            Some(i) => i,
            None => {
                proof {
                    assert(rom@.subrange(off as int, rom@.len() as int) == rom@.skip(off as int));
                    if pc < 0x8000 {
                        assert(!decodes_at(rom@, abs as int));
                    }
                    lemma_obligations_grow(rom@, instrs1, instrs1.dom(), e0, targets1, queue1, cur_of(bank, pc),
                        self.instructions@, self.instructions@.dom(), e0, self.jump_targets@, self.queue@, None);
                }
                return None;
            },
        };
        let len = inst.bytes.len();
        let flow = inst.flow;
        let next: u16 = ((pc as u32 + len as u32) % 65536) as u16;
        proof {
            let data = rom@.skip(off as int);
            assert(rom@.subrange(off as int, rom@.len() as int) == data);
            assert(rom_offset(ib, pc) == off as int);
            assert(abs == abs_addr_spec(ib, pc));
            assert(data[0] == rom@[off as int]);
            assert(matches_rom(rom@, abs, inst));
            assert(next == next_pc(inst));
            if pc < 0x8000 {
                assert(decodes_at(rom@, abs as int));
            }
        }
        self.instructions.insert(abs, inst);
        proof {
            let instrs2 = self.instructions@;
            assert(instrs2 == instrs1.insert(abs, inst));
            assert(instrs2.dom() == instrs1.dom().insert(abs));
            assert(instrs2.dom().len() == instrs1.dom().len() + 1);
            lemma_obligations_grow(rom@, instrs1, instrs1.dom(), e0, targets1, queue1, cur_of(bank, pc),
                instrs1, instrs2.dom(), e0, targets1, queue1, None);
            assert(self.sound(rom@));
            lemma_justified_grow(rom@, instrs1, self.starts@, instrs2, self.starts@);
            assert(self.bounded(rom@));
        }
        let r = self.follow(Ghost(rom@), Ghost(instrs1), abs, bank, pc, next, flow, nb);
        proof {
            assert(abs_addr_spec(ib, next) == abs_addr_spec(bank, next));
        }
        r
    }

    /// Traces straight-line code from `start_pc` in `bank` until control leaves the path,
    /// decoded code is met, or no instruction can be decoded.
    fn trace(&mut self, rom: &[u8], bank: u16, start_pc: u16, nb: u16)
        requires
            nb == bank_count(rom@),
            start_pc < 0x8000,
            old(self).inv(rom@, Some(abs_addr_spec(bank, start_pc))),
            code_justified(rom@, old(self).instructions@, old(self).starts@, abs_addr_spec(bank, start_pc)),
            !old(self).instructions@.dom().contains(abs_addr_spec(bank, start_pc)),
        ensures
            final(self).inv(rom@, None),
            forall|a: u32| #[trigger] old(self).instructions@.dom().contains(a) ==> final(self).instructions@.dom().contains(a)
                && final(self).instructions@[a] == old(self).instructions@[a],
            final(self).function_entries@ == old(self).function_entries@,
            final(self).starts == old(self).starts,
            old(self).jump_targets@.subset_of(final(self).jump_targets@),
            old(self).queue@.len() <= final(self).queue@.len(),
            forall|i: int| 0 <= i < old(self).queue@.len() ==> #[trigger] final(self).queue@[i] == old(self).queue@[i],
            final(self).instructions@.dom().len() > old(self).instructions@.dom().len()
                || final(self).queue@ == old(self).queue@,
            old(self).instructions@.dom().len() <= final(self).instructions@.dom().len(),
            explored(rom@, final(self).instructions@.dom(), abs_addr_spec(bank, start_pc)),
    {
        let ghost i0 = self.instructions@;
        let ghost e0 = self.function_entries@;
        let ghost j0 = self.jump_targets@;
        let ghost q0 = self.queue@;
        let mut pc = start_pc;
        let ghost mut first = true;
        loop
            invariant_except_break
                nb == bank_count(rom@),
                self.inv(rom@, cur_of(bank, pc)),
                forall|a: u32| #[trigger] i0.dom().contains(a) ==> self.instructions@.dom().contains(a)
                    && self.instructions@[a] == i0[a],
                self.function_entries@ == e0,
                self.starts == old(self).starts,
                j0.subset_of(self.jump_targets@),
                q0.len() <= self.queue@.len(),
                forall|i: int| 0 <= i < q0.len() ==> #[trigger] self.queue@[i] == q0[i],
                self.instructions@.dom().len() > i0.dom().len() || self.queue@ == q0,
                i0.dom().len() <= self.instructions@.dom().len(),
                code_justified(rom@, self.instructions@, self.starts@, abs_addr_spec(bank, pc)),
                first ==> pc == start_pc,
                start_pc < 0x8000,
                !first ==> explored(rom@, self.instructions@.dom(), abs_addr_spec(bank, start_pc)),
            ensures
                self.inv(rom@, None),
                forall|a: u32| #[trigger] i0.dom().contains(a) ==> self.instructions@.dom().contains(a)
                    && self.instructions@[a] == i0[a],
                self.function_entries@ == e0,
                self.starts == old(self).starts,
                j0.subset_of(self.jump_targets@),
                q0.len() <= self.queue@.len(),
                forall|i: int| 0 <= i < q0.len() ==> #[trigger] self.queue@[i] == q0[i],
                self.instructions@.dom().len() > i0.dom().len() || self.queue@ == q0,
                i0.dom().len() <= self.instructions@.dom().len(),
                explored(rom@, self.instructions@.dom(), abs_addr_spec(bank, start_pc)),
            decreases 0x1_0000_0000 - self.instructions@.dom().len(),
        {
            proof {
                lemma_u32_set_len(self.instructions@.dom());
            }
            let ghost k1 = self.instructions@.dom();
            let step_r = self.step(rom, bank, pc, nb);
            proof {
                let st = abs_addr_spec(bank, start_pc);
                if !first {
                    assert(k1.subset_of(self.instructions@.dom()));
                    if k1.contains(st) {
                        assert(self.instructions@.dom().contains(st));
                    }
                }
                assert(explored(rom@, self.instructions@.dom(), st));
                first = false;
            }
            match step_r {
                Some(n) => {
                    proof {
                        let x = abs_addr_spec(bank, pc);
                        let a = abs_addr_spec(bank, n);
                        assert(successor_of(self.instructions@[x], nb, a));
                    }
                    pc = n;
                    proof {
                        lemma_u32_set_len(self.instructions@.dom());
                    }
                },
                None => {
                    break;
                },
            }
        }
    }

    /// Walks the code area of every bank (0x0150..0x4000 of bank 0, 0x4000..0x8000 of the
    /// others), stepping over decoded instructions, and traces as a function every position
    /// not yet decoded whose byte is neither 0x00 nor 0xFF.
    fn sweep(&mut self, rom: &[u8], nb: u16)
        requires
            nb == bank_count(rom@),
            old(self).inv(rom@, None),
            old(self).queue@.len() == 0,
            old(self).starts@ == Set::<u32>::empty(),
        ensures
            final(self).inv(rom@, None),
            final(self).queue@.len() == 0,
            forall|a: u32| #[trigger] old(self).instructions@.dom().contains(a) ==> final(self).instructions@.dom().contains(a)
                && final(self).instructions@[a] == old(self).instructions@[a],
            old(self).function_entries@.subset_of(final(self).function_entries@),
            old(self).jump_targets@.subset_of(final(self).jump_targets@),
            forall|a: u32| #[trigger] sweep_candidate(rom@, a) ==> swept(
                final(self).instructions@,
                final(self).function_entries@,
                a,
            ),
            walk_below(rom@, final(self).instructions@, bank_count(rom@) as int * 16384),
            final(self).starts@.subset_of(final(self).function_entries@),
            forall|s: u32| #[trigger] final(self).starts@.contains(s) ==> sweep_start(
                rom@,
                final(self).instructions@,
                s,
            ),
    {
        let ghost i0 = self.instructions@;
        let ghost e0 = self.function_entries@;
        let ghost j0 = self.jump_targets@;
        proof {
            lemma_banks_fit(rom@);
        }
        let mut b: u16 = 0;
        while b < nb
            invariant
                nb == bank_count(rom@),
                bank_count(rom@) as int * 16384 <= rom@.len(),
                self.inv(rom@, None),
                self.queue@.len() == 0,
                forall|a: u32| #[trigger] i0.dom().contains(a) ==> self.instructions@.dom().contains(a)
                    && self.instructions@[a] == i0[a],
                e0.subset_of(self.function_entries@),
                j0.subset_of(self.jump_targets@),
                b <= nb,
                swept_below(rom@, self.instructions@, self.function_entries@, b as int * 16384),
                walk_below(rom@, self.instructions@, bank_lo(b)),
                self.starts@.subset_of(self.function_entries@),
                forall|s: u32| #[trigger] self.starts@.contains(s) ==> s < bank_lo(b) && sweep_start(
                    rom@,
                    self.instructions@,
                    s,
                ),
            decreases nb - b,
        {
            let min_pc: u16 = if b == 0 { 0x0150 } else { 0x4000 };
            let max_pc: u16 = if b == 0 { 0x4000 } else { 0x8000 };
            let mut pc: u16 = min_pc;
            while pc < max_pc
                invariant
                    nb == bank_count(rom@),
                    bank_count(rom@) as int * 16384 <= rom@.len(),
                    self.inv(rom@, None),
                    self.queue@.len() == 0,
                    forall|a: u32| #[trigger] i0.dom().contains(a) ==> self.instructions@.dom().contains(a)
                        && self.instructions@[a] == i0[a],
                    e0.subset_of(self.function_entries@),
                    j0.subset_of(self.jump_targets@),
                    max_pc <= 0x8000,
                    pc <= 0x8002,
                    b < nb,
                    min_pc == (if b == 0 { 0x0150u16 } else { 0x4000u16 }),
                    max_pc == (if b == 0 { 0x4000u16 } else { 0x8000u16 }),
                    min_pc <= pc,
                    swept_below(rom@, self.instructions@, self.function_entries@, walk_pos(b, pc)),
                    walk_below(rom@, self.instructions@, walk_pos(b, pc)),
                    walk_clear(self.instructions@, bank_lo(b), walk_pos(b, pc)),
                    forall|s: u32| #[trigger] self.starts@.contains(s) ==> s < walk_pos(b, pc) && s < (b as int
                        + 1) * 16384 && sweep_start(rom@, self.instructions@, s),
                    self.starts@.subset_of(self.function_entries@),
                decreases 0x8003 - pc,
            {
                proof {
                    lemma_u32_keys_ordered();
                }
                let ghost i1 = self.instructions@;
                let ghost e1 = self.function_entries@;
                let ghost pos = walk_pos(b, pc);
                let a = get_abs_addr(b, pc);
                proof {
                    assert(a as int == pos);
                    assert(region_start(a) == bank_lo(b));
                }
                if !self.instructions.contains_key(&a) {
                    assert(a & 0x7FFF_FFFFu32 == a) by (bit_vector)
                        requires
                            a < 0x8000_0000u32,
                    ;
                    let off = (a & 0x7FFF_FFFF) as usize;
                    if off < rom.len() {
                        let val = rom[off];
                        if val != 0x00 && val != 0xFF {
                            let ghost q1 = self.queue@;
                            self.queue.push_back((b, pc, true));
                            proof {
                                let st0 = self.starts@;
                                self.starts@ = st0.insert(a);
                                lemma_obligations_grow(rom@, self.instructions@, self.instructions@.dom(),
                                    self.function_entries@, self.jump_targets@, q1, None,
                                    self.instructions@, self.instructions@.dom(), self.function_entries@,
                                    self.jump_targets@, self.queue@, None);
                                assert(rom@[a as int] == val);
                                assert(sweep_candidate(rom@, a));
                                assert forall|p: u32|
                                    self.instructions@.dom().contains(p) && region_start(a) <= p && #[trigger] spans(
                                        self.instructions@[p],
                                        p,
                                        a,
                                    ) implies inside_other(self.instructions@, p) by {
                                    assert(bank_lo(b) <= p < pos < p + self.instructions@[p].bytes@.len());
                                }
                                assert(sweep_start(rom@, self.instructions@, a));
                                let q = self.queue@;
                                assert forall|i: int| #![trigger q[i]] 0 <= i < q.len() implies code_justified(
                                    rom@,
                                    self.instructions@,
                                    self.starts@,
                                    abs_addr_spec(q[i].0, q[i].1),
                                ) && (q[i].2 ==> entry_justified(rom@, self.instructions@, self.starts@, abs_addr_spec(q[i].0, q[i].1))) by {
                                    if i < q1.len() {
                                        assert(q[i] == q1[i]);
                                    }
                                }
                                lemma_justified_grow(rom@, self.instructions@, st0, self.instructions@, self.starts@);
                                assert(self.bounded(rom@));
                            }
                            let ghost d1 = self.instructions@;
                            let ghost e_before = self.function_entries@;
                            let ghost q_before = self.queue@;
                            proof {
                                assert(q_before[0] == (b, pc, true));
                            }
                            self.drain(rom, nb);
                            proof {
                                assert(self.function_entries@.contains(a));
                                assert(e_before.subset_of(self.function_entries@));
                            }
                            proof {
                                assert(in_rom(rom@, self.instructions@));
                                lemma_walk_grow(rom@, d1, self.instructions@, self.starts@, bank_lo(b), pos);
                            }
                        }
                    }
                }
                let a2 = get_abs_addr(b, pc);
                let step: u16 = match self.instructions.get(&a2) {
                    Some(inst) => {
                        proof {
                            assert(matches_rom(rom@, a2, *inst));
                        }
                        inst.bytes.len() as u16
                    },
                    None => 1,
                };
                proof {
                    let instrs = self.instructions@;
                    let entries = self.function_entries@;
                    lemma_swept_grow(i1, e1, instrs, entries);
                    assert(a2 as int == pos);
                    assert forall|x: u32| x < pos + step && #[trigger] sweep_candidate(rom@, x) implies swept(
                        instrs,
                        entries,
                        x,
                    ) by {
                        if x < pos {
                            assert(swept(i1, e1, x));
                        } else if x > pos {
                            assert(spans(instrs[a2], a2, x));
                        }
                    }
                    assert forall|p: u32|
                        0x150 <= p < pos + step && #[trigger] sweep_candidate(rom@, p) && !inside_other(instrs, p)
                            && decodes_at(rom@, p as int) implies instrs.dom().contains(p) by {
                        if p > pos {
                            assert(spans(instrs[a2], a2, p));
                        }
                    }
                    assert forall|p: u32|
                        #![trigger instrs[p]]
                        instrs.dom().contains(p) && bank_lo(b) <= p < pos + step < p + instrs[p].bytes@.len()
                            implies inside_other(instrs, p) by {
                        if p > pos {
                            assert(spans(instrs[a2], a2, p));
                        }
                    }
                }
                pc = pc + step;
            }
            b = b + 1;
        }
    }

    /// Takes start points off the queue and traces them until it is empty; function starts
    /// in ROM become function entries.
    fn drain(&mut self, rom: &[u8], nb: u16)
        requires
            nb == bank_count(rom@),
            old(self).inv(rom@, None),
        ensures
            final(self).inv(rom@, None),
            final(self).queue@.len() == 0,
            forall|a: u32| #[trigger] old(self).instructions@.dom().contains(a) ==> final(self).instructions@.dom().contains(a)
                && final(self).instructions@[a] == old(self).instructions@[a],
            old(self).function_entries@.subset_of(final(self).function_entries@),
            old(self).jump_targets@.subset_of(final(self).jump_targets@),
            final(self).starts == old(self).starts,
            old(self).queue@.len() > 0 ==> explored(
                rom@,
                final(self).instructions@.dom(),
                abs_addr_spec(old(self).queue@[0].0, old(self).queue@[0].1),
            ),
            old(self).queue@.len() > 0 && old(self).queue@[0].2 ==> final(self).function_entries@.contains(
                abs_addr_spec(old(self).queue@[0].0, old(self).queue@[0].1),
            ),
    {
        let ghost i0 = self.instructions@;
        let ghost e0 = self.function_entries@;
        let ghost j0 = self.jump_targets@;
        let ghost q0 = self.queue@;
        let ghost mut started: bool = false;
        loop
            invariant_except_break
                nb == bank_count(rom@),
                self.inv(rom@, None),
                forall|a: u32| #[trigger] i0.dom().contains(a) ==> self.instructions@.dom().contains(a)
                    && self.instructions@[a] == i0[a],
                e0.subset_of(self.function_entries@),
                j0.subset_of(self.jump_targets@),
                self.starts == old(self).starts,
                !started ==> self.queue@ == q0,
                started && q0.len() > 0 && q0[0].2 ==> self.function_entries@.contains(
                    abs_addr_spec(q0[0].0, q0[0].1),
                ),
                started && q0.len() > 0 ==> explored(rom@, self.instructions@.dom(), abs_addr_spec(q0[0].0, q0[0].1)),
            ensures
                self.inv(rom@, None),
                self.queue@.len() == 0,
                forall|a: u32| #[trigger] i0.dom().contains(a) ==> self.instructions@.dom().contains(a)
                    && self.instructions@[a] == i0[a],
                e0.subset_of(self.function_entries@),
                j0.subset_of(self.jump_targets@),
                self.starts == old(self).starts,
                q0.len() > 0 && q0[0].2 ==> self.function_entries@.contains(abs_addr_spec(q0[0].0, q0[0].1)),
                q0.len() > 0 ==> explored(rom@, self.instructions@.dom(), abs_addr_spec(q0[0].0, q0[0].1)),
            decreases 0x1_0000_0000 - self.instructions@.dom().len(), self.queue@.len(),
        {
            proof {
                lemma_u32_keys_ordered();
                lemma_u32_set_len(self.instructions@.dom());
            }
            let ghost k1 = self.instructions@.dom();
            let ghost e1 = self.function_entries@;
            let ghost q1 = self.queue@;
            match self.queue.pop_front() {
                None => {
                    break;
                },
                Some(item) => {
                    let (b, p, f) = item;
                    let a = get_abs_addr(b, p);
                    proof {
                        assert(q1[0] == item);
                        assert(p < 0x8000);
                    }
                    if f && p < 0x8000 {
                        self.function_entries.insert(a);
                    }
                    proof {
                        if !started {
                            assert(item == q0[0]);
                        }
                        started = true;
                        lemma_obligations_pop(rom@, self.instructions@, e1, self.function_entries@,
                            self.jump_targets@, q1, a, f);
                    }
                    if self.instructions.contains_key(&a) {
                        proof {
                            let q2 = self.queue@;
                            lemma_obligations_grow(rom@, self.instructions@, k1, self.function_entries@,
                                self.jump_targets@, q2, Some(a), self.instructions@, k1,
                                self.function_entries@, self.jump_targets@, q2, None);
                        }
                    } else {
                        self.trace(rom, b, p, nb);
                    }
                    proof {
                        lemma_u32_set_len(self.instructions@.dom());
                        assert(k1.subset_of(self.instructions@.dom()));
                    }
                },
            }
        }
    }
}


/// The function that instruction address `a` belongs to: the greatest function entry that
/// is a decoded address at or below `a`, or 0x0100 when there is none.
#[verifier::opaque]
pub open spec fn owner(keys: Set<u32>, entries: Set<u32>, a: u32) -> u32 {
    if exists|e: u32| keys.contains(e) && entries.contains(e) && e <= a {
        choose|e: u32|
            keys.contains(e) && entries.contains(e) && e <= a && forall|e2: u32|
                keys.contains(e2) && entries.contains(e2) && e2 <= a ==> e2 <= e
    } else {
        0x0100
    }
}

/// `s` is strictly increasing.
pub open spec fn strictly_increasing(s: Seq<u32>) -> bool {
    forall|i: int, j: int| 0 <= i < j < s.len() ==> s[i] < s[j]
}

/// The keys of `m` in increasing order.
pub fn sorted_keys<V>(m: &BTreeMap<u32, V>) -> (v: Vec<u32>)
    ensures
        strictly_increasing(v@),
        v@.to_set() == m@.dom(),
        v@.len() == m@.dom().len(),
{
    broadcast use vstd::std_specs::btree::group_btree_axioms;
    let mut v: Vec<u32> = Vec::new();
    let ghost ks = vstd::std_specs::btree::spec_keys_iter(m).remaining();
    for k in it: m.keys()
        invariant
            it.seq() == ks,
            v@ == ks.take(it.index()).map_values(|k: &u32| *k),
    {
        v.push(*k);
    }
    proof {
        vstd::std_specs::btree::axiom_spec_keys_iter(m);
        lemma_increasing_keys(ks);
        assert(v@ == ks.map_values(|k: &u32| *k));
        assert(ks.unref() == v@);
    }
    v
}

proof fn lemma_owner_is(keys: Seq<u32>, e: Set<u32>, i: int, cur: u32, found: bool)
    requires
        strictly_increasing(keys),
        0 <= i < keys.len(),
        found ==> exists|j0: int| 0 <= j0 <= i && #[trigger] keys[j0] == cur && e.contains(cur),
        found ==> forall|j: int| 0 <= j <= i && #[trigger] e.contains(keys[j]) ==> keys[j] <= cur,
        !found ==> cur == 0x0100 && forall|j: int| 0 <= j <= i ==> !e.contains(#[trigger] keys[j]),
    ensures
        cur == owner(keys.to_set(), e, keys[i]),
{
    reveal(owner);
    let k = keys.to_set();
    let a = keys[i];
    if found {
        let j0 = choose|j0: int| 0 <= j0 <= i && keys[j0] == cur && e.contains(cur);
        assert(k.contains(cur));
        if j0 < i {
            assert(keys[j0] < keys[i]);
        }
        assert(cur <= a);
        assert forall|e2: u32| k.contains(e2) && e.contains(e2) && e2 <= a implies e2 <= cur by {
            let j2 = choose|j2: int| 0 <= j2 < keys.len() && keys[j2] == e2;
            if j2 > i {
                assert(keys[i] < keys[j2]);
            }
            assert(e.contains(keys[j2]));
        }
        let c = owner(k, e, a);
        assert(k.contains(cur) && e.contains(cur) && cur <= a);
        assert(c == cur);
    } else {
        assert forall|e2: u32| !(k.contains(e2) && e.contains(e2) && e2 <= a) by {
            if k.contains(e2) && e.contains(e2) && e2 <= a {
                let j2 = choose|j2: int| 0 <= j2 < keys.len() && keys[j2] == e2;
                if j2 > i {
                    assert(keys[i] < keys[j2]);
                }
                assert(!e.contains(keys[j2]));
            }
        }
    }
}

/// For each key, in order, the function it belongs to (see `owner`).
fn owners_of(keys: &Vec<u32>, entries: &BTreeSet<u32>) -> (o: Vec<u32>)
    requires
        strictly_increasing(keys@),
    ensures
        o@.len() == keys@.len(),
        forall|i: int| 0 <= i < keys@.len() ==> o@[i] == owner(keys@.to_set(), entries@, #[trigger] keys@[i]),
{
    proof {
        lemma_u32_keys_ordered();
    }
    let ghost k = keys@.to_set();
    let ghost e = entries@;
    let mut o: Vec<u32> = Vec::new();
    let mut cur: u32 = 0x0100;
    let mut found = false;
    let ghost mut j0: int = 0;
    let mut i: usize = 0;
    while i < keys.len()
        invariant
            i <= keys@.len(),
            strictly_increasing(keys@),
            k == keys@.to_set(),
            e == entries@,
            o@.len() == i,
            forall|j: int| 0 <= j < i ==> o@[j] == owner(k, e, #[trigger] keys@[j]),
            found ==> 0 <= j0 < i && keys@[j0] == cur && e.contains(cur),
            found ==> forall|j: int| 0 <= j < i && #[trigger] e.contains(keys@[j]) ==> keys@[j] <= cur,
            !found ==> cur == 0x0100 && forall|j: int| 0 <= j < i ==> !e.contains(#[trigger] keys@[j]),
        decreases keys@.len() - i,
    {
        proof {
            lemma_u32_keys_ordered();
        }
        let a = keys[i];
        if entries.contains(&a) {
            cur = a;
            found = true;
            proof {
                j0 = i as int;
                assert forall|j: int| 0 <= j <= i && #[trigger] e.contains(keys@[j]) implies keys@[j] <= cur by {
                    if j < i {
                        assert(keys@[j] < keys@[i as int]);
                    }
                }
            }
        }
        proof {
            lemma_owner_is(keys@, e, i as int, cur, found);
        }
        o.push(cur);
        i = i + 1;
    }
    o
}


/// A jump or branch from `a` to a decoded address either stays within the function that
/// `a` belongs to, or lands on a function entry (function membership taken from `owners`).
pub open spec fn jump_respects(
    instrs: Map<u32, DecodedInstruction>,
    owners: Set<u32>,
    entries: Set<u32>,
    a: u32,
) -> bool {
    let inst = instrs[a];
    let keys = instrs.dom();
    match inst.flow {
        FlowControl::Jump(t) | FlowControl::Branch(t) => {
            let ta = abs_addr_spec(inst.bank, t);
            (t < 0x8000 && keys.contains(ta)) ==> (owner(keys, owners, ta) == owner(keys, owners, a)
                || entries.contains(ta))
        },
        _ => true,
    }
}

/// Every jump or branch between decoded addresses stays within one function or targets a
/// function entry.
pub open spec fn jumps_respect_functions(instrs: Map<u32, DecodedInstruction>, entries: Set<u32>) -> bool {
    forall|a: u32| #[trigger] instrs.dom().contains(a) ==> jump_respects(instrs, entries, entries, a)
}

/// Adds to `entries` every decoded target of a jump or branch that leaves the function its
/// source belongs to, until there is none.
fn promote_cross_targets(
    instructions: &BTreeMap<u32, DecodedInstruction>,
    entries: &mut BTreeSet<u32>,
)
    requires
        old(entries)@.contains(0x0100),
    ensures
        old(entries)@.subset_of(final(entries)@),
        forall|x: u32| #[trigger] final(entries)@.contains(x) ==> old(entries)@.contains(x)
            || promoted(instructions@, final(entries)@, x),
        jumps_respect_functions(instructions@, final(entries)@),
{
    proof {
        lemma_u32_keys_ordered();
    }
    let keys = sorted_keys(instructions);
    let ghost k = instructions@.dom();
    let ghost e0 = entries@;
    loop
        invariant
            strictly_increasing(keys@),
            keys@.to_set() == k,
            k == instructions@.dom(),
            k.finite(),
            e0.subset_of(entries@),
            e0.contains(0x0100),
            forall|x: u32| #[trigger] entries@.contains(x) ==> e0.contains(x) || promoted(instructions@, entries@, x),
        ensures
            e0.subset_of(entries@),
            forall|x: u32| #[trigger] entries@.contains(x) ==> e0.contains(x) || promoted(instructions@, entries@, x),
            jumps_respect_functions(instructions@, entries@),
        decreases k.len() - k.intersect(entries@).len(),
    {
        proof {
            lemma_u32_keys_ordered();
            vstd::set_lib::lemma_len_intersect(k, entries@);
        }
        let ghost es = entries@;
        let owners = owners_of(&keys, entries);
        let mut addr_to_func: BTreeMap<u32, u32> = BTreeMap::new();
        let mut j: usize = 0;
        while j < keys.len()
            invariant
                j <= keys@.len(),
                owners@.len() == keys@.len(),
                strictly_increasing(keys@),
                forall|x: u32| #[trigger] addr_to_func@.contains_key(x) ==> exists|m: int| 0 <= m < j && keys@[m] == x,
                forall|m: int| 0 <= m < j ==> #[trigger] addr_to_func@.contains_key(keys@[m])
                    && addr_to_func@[keys@[m]] == owners@[m],
            decreases keys@.len() - j,
        {
            proof {
                lemma_u32_keys_ordered();
            }
            addr_to_func.insert(keys[j], owners[j]);
            proof {
                assert forall|m: int| 0 <= m < j + 1 implies #[trigger] addr_to_func@.contains_key(keys@[m])
                    && addr_to_func@[keys@[m]] == owners@[m] by {
                    if m < j {
                        assert(keys@[m] < keys@[j as int]);
                    }
                }
            }
            j = j + 1;
        }
        let mut newly = false;
        let mut i: usize = 0;
        while i < keys.len()
            invariant
                i <= keys@.len(),
                owners@.len() == keys@.len(),
                strictly_increasing(keys@),
                keys@.to_set() == k,
                k == instructions@.dom(),
                k.finite(),
                forall|m: int| 0 <= m < keys@.len() ==> owners@[m] == owner(k, es, #[trigger] keys@[m]),
                forall|x: u32| #[trigger] addr_to_func@.contains_key(x) ==> exists|m: int| 0 <= m < keys@.len() && keys@[m] == x,
                forall|m: int| 0 <= m < keys@.len() ==> #[trigger] addr_to_func@.contains_key(keys@[m])
                    && addr_to_func@[keys@[m]] == owners@[m],
                es.subset_of(entries@),
                e0.subset_of(es),
                e0.contains(0x0100),
                forall|x: u32| #[trigger] entries@.contains(x) ==> e0.contains(x) || promoted(instructions@, entries@, x),
                !newly ==> entries@ == es,
                newly ==> k.intersect(entries@).len() > k.intersect(es).len(),
                forall|m: int| 0 <= m < i ==> jump_respects(instructions@, es, entries@, #[trigger] keys@[m]),
            decreases keys@.len() - i,
        {
            proof {
                lemma_u32_keys_ordered();
                vstd::set_lib::lemma_len_intersect(k, entries@);
            }
            let a = keys[i];
            let ghost before = entries@;
            assert(k.contains(a));
            match instructions.get(&a) {
                Some(inst) => {
                    match inst.flow {
                        FlowControl::Jump(t) | FlowControl::Branch(t) => {
                            if t < 0x8000 {
                                let ta = get_abs_addr(inst.bank, t);
                                match addr_to_func.get(&ta) {
                                    Some(tf) => {
                                        let ghost m = choose|m: int| 0 <= m < keys@.len() && keys@[m] == ta;
                                        assert(*tf == owner(k, es, ta));
                                        if *tf != owners[i] {
                                            proof {
                                                assert(direct_target(instructions@[a], ta));
                                            }
                                            if entries.insert(ta) {
                                                newly = true;
                                                proof {
                                                    assert(entries@.remove(ta) =~= before);
                                                    assert(owners@[i as int] == owner(k, es, a));
                                                    lemma_separation_grows(k, es, before, a, ta);
                                                    assert(promoted(instructions@, entries@, ta));
                                                    assert forall|x: u32| #[trigger] entries@.contains(x) implies e0.contains(x)
                                                        || promoted(instructions@, entries@, x) by {
                                                        if x != ta && !e0.contains(x) {
                                                            assert(promoted(instructions@, before, x));
                                                            let w = choose|w: u32|
                                                                instructions@.dom().contains(w) && #[trigger] direct_target(instructions@[w], x)
                                                                    && owner(k, before.remove(x), w) != owner(k, before.remove(x), x);
                                                            lemma_separation_grows(k, before.remove(x), entries@.remove(x), w, x);
                                                            assert(direct_target(instructions@[w], x));
                                                        }
                                                    }
                                                    assert(k.intersect(entries@) == k.intersect(before).insert(ta));
                                                    assert(!k.intersect(before).contains(ta));
                                                    assert(k.intersect(before).subset_of(k));
                                                    vstd::set_lib::lemma_len_subset(k.intersect(before), k);
                                                    assert(k.intersect(es).subset_of(k.intersect(before)));
                                                    vstd::set_lib::lemma_len_subset(k.intersect(es), k.intersect(before));
                                                }
                                            } else {
                                                proof {
                                                    assert(entries@ =~= before);
                                                }
                                            }
                                        }
                                    },
                                    None => {
                                        assert(!k.contains(ta));
                                    },
                                }
                            }
                        },
                        _ => {},
                    }
                },
                None => {},
            }
            proof {
                assert(k.intersect(before).subset_of(k.intersect(entries@)));
                assert(k.intersect(entries@).subset_of(k));
                vstd::set_lib::lemma_len_subset(k.intersect(entries@), k);
                vstd::set_lib::lemma_len_subset(k.intersect(before), k.intersect(entries@));
                assert forall|m: int| 0 <= m < i + 1 implies jump_respects(instructions@, es, entries@, #[trigger] keys@[m]) by {
                    if m < i {
                        assert(jump_respects(instructions@, es, before, keys@[m]));
                    }
                }
            }
            i = i + 1;
        }
        if !newly {
            proof {
                assert forall|x: u32| #[trigger] instructions@.dom().contains(x) implies jump_respects(instructions@, entries@, entries@, x) by {
                    let m = choose|m: int| 0 <= m < keys@.len() && keys@[m] == x;
                    assert(jump_respects(instructions@, es, entries@, keys@[m]));
                }
            }
            break;
        }
        proof {
            vstd::set_lib::lemma_len_intersect(k, entries@);
        }
    }
}


/// The outcome of exploring a ROM.
pub struct DisasmResult {
    /// Absolute address -> instruction decoded there.
    pub instructions: BTreeMap<u32, DecodedInstruction>,
    /// Absolute addresses where functions begin.
    pub function_entries: BTreeSet<u32>,
    /// Absolute addresses that jumps and branches lead to.
    pub jump_targets: BTreeSet<u32>,
}

/// Every stored instruction is the decoding of the image at its address.
pub open spec fn faithful(rom: Seq<u8>, instrs: Map<u32, DecodedInstruction>) -> bool {
    forall|a: u32| #[trigger] instrs.dom().contains(a) ==> matches_rom(rom, a, instrs[a])
}

/// Addresses that are decoded or hold no instruction, as a predicate.
pub open spec fn explored_fn(rom: Seq<u8>, keys: Set<u32>) -> spec_fn(u32) -> bool {
    |a: u32| explored(rom, keys, a)
}

/// For every decoded instruction: the next instruction, when execution can continue there,
/// and every jump, branch and call target in ROM are explored; call targets and return
/// addresses are function entries; jump and branch targets are recorded.
pub open spec fn successors_explored(
    rom: Seq<u8>,
    instrs: Map<u32, DecodedInstruction>,
    entries: Set<u32>,
    targets: Set<u32>,
) -> bool {
    forall|a: u32| #[trigger] instrs.dom().contains(a) ==> successors_hold(
        instrs[a],
        bank_count(rom),
        explored_fn(rom, instrs.dom()),
        member_fn(entries),
        member_fn(targets),
    )
}

proof fn lemma_obligations_settled(
    rom: Seq<u8>,
    instrs: Map<u32, DecodedInstruction>,
    entries: Set<u32>,
    targets: Set<u32>,
)
    requires
        obligations_ok(rom, instrs, entries, targets, Seq::empty(), None),
    ensures
        successors_explored(rom, instrs, entries, targets),
        forall|r: u32| #[trigger] is_root_entry(r) ==> explored(rom, instrs.dom(), r),
{
    let nb = bank_count(rom);
    let q = Seq::<(u16, u16, bool)>::empty();
    let r1 = reached_fn(rom, instrs.dom(), q, None);
    let r2 = explored_fn(rom, instrs.dom());
    let n1 = entered_fn(entries, q);
    let n2 = member_fn(entries);
    assert forall|x: u32| #[trigger] r1(x) implies r2(x) by {}
    assert forall|x: u32| #[trigger] n1(x) implies n2(x) by {}
    assert forall|x: u32| #[trigger] instrs.dom().contains(x) implies successors_hold(
        instrs[x],
        nb,
        r2,
        n2,
        member_fn(targets),
    ) by {
        lemma_successors_mono(instrs[x], nb, r1, n1, member_fn(targets), r2, n2, member_fn(targets));
    }
    assert forall|r: u32| #[trigger] is_root_entry(r) implies explored(rom, instrs.dom(), r) by {
        assert(r1(r));
    }
}

/// Explores the ROM from its entry point (0x0100) and interrupt vectors (0x0040, 0x0048,
/// 0x0050, 0x0058, 0x0060), following jumps, branches and calls, then sweeps every bank
/// for code not reached that way, and finally makes every decoded target of a jump or
/// branch that leaves its function a function entry of its own.
///
/// Every decoded instruction is the decoding of the image at its address, and everything
/// found is accounted for: decoded code is a root, a sweep start (see `sweep_start`) or a
/// successor of decoded code; function entries are roots, sweep starts, call targets,
/// return addresses, or targets of decoded jumps and branches that come from another
/// function; jump targets are targets of decoded jumps and branches. Every position that
/// the sweep may start at is decoded, a function entry, or inside a decoded instruction.
/// Every instruction lies in ROM (below 0x8000), carries a bank of at least 1 when it lies
/// in the switchable window, holds its whole encoding, and is stored under its absolute
/// address; entries and jump targets are ROM addresses (below 0x4000_0000). Decoded code
/// that is neither a root nor a successor of decoded code (code that only the sweep found)
/// is a function entry. The sweep
/// decodes what it finds: every position of a whole bank's code area (from 0x0150 on)
/// whose byte is neither 0x00 nor 0xFF, that lies inside no decoded instruction and at
/// which an instruction can be decoded, is decoded.
pub fn analyze_rom(rom: &RomInfo) -> (r: DisasmResult)
    ensures
        faithful(rom.rom_data@, r.instructions@),
        successors_explored(rom.rom_data@, r.instructions@, r.function_entries@, r.jump_targets@),
        forall|e: u32| #[trigger] is_root_entry(e) ==> r.function_entries@.contains(e)
            && explored(rom.rom_data@, r.instructions@.dom(), e),
        forall|e: u32| #[trigger] r.function_entries@.contains(e) ==> e < 0x4000_0000,
        forall|t: u32| #[trigger] r.jump_targets@.contains(t) ==> t < 0x4000_0000,
        forall|a: u32| #[trigger] r.instructions@.dom().contains(a) ==> r.instructions@[a].pc < 0x8000
            && (r.instructions@[a].pc >= 0x4000 ==> r.instructions@[a].bank >= 1),
        instructions_well_formed(r.instructions@),
        forall|a: u32|
            #[trigger] r.instructions@.dom().contains(a) && !is_root_entry(a) && !(exists|x: u32|
                r.instructions@.dom().contains(x) && #[trigger] successor_of(
                    r.instructions@[x],
                    bank_count(rom.rom_data@),
                    a,
                )) ==> r.function_entries@.contains(a),
        forall|p: u32|
            0x150 <= p < bank_count(rom.rom_data@) as int * 16384 && #[trigger] sweep_candidate(rom.rom_data@, p)
                && !inside_other(r.instructions@, p) && decodes_at(rom.rom_data@, p as int)
                ==> r.instructions@.dom().contains(p),
        jumps_respect_functions(r.instructions@, r.function_entries@),
        forall|a: u32| #[trigger] r.instructions@.dom().contains(a) ==> code_origin(
            rom.rom_data@,
            r.instructions@,
            a,
        ),
        forall|e: u32| #[trigger] r.function_entries@.contains(e) ==> entry_origin(
            rom.rom_data@,
            r.instructions@,
            e,
        ) || promoted(r.instructions@, r.function_entries@, e),
        forall|t: u32| #[trigger] r.jump_targets@.contains(t) ==> target_justified(
            rom.rom_data@,
            r.instructions@,
            t,
        ),
        forall|a: u32| #[trigger] sweep_candidate(rom.rom_data@, a) ==> swept(
            r.instructions@,
            r.function_entries@,
            a,
        ),
{
    proof {
        lemma_u32_keys_ordered();
    }
    let data = rom.rom_data.as_slice();
    let total_banks = data.len() / BANK_SIZE;
    let nb: u16 = (total_banks % 65536) as u16;
    let mut ex = Explorer {
        instructions: BTreeMap::new(),
        function_entries: BTreeSet::new(),
        jump_targets: BTreeSet::new(),
        queue: VecDeque::new(),
        starts: Ghost(Set::empty()),
    };
    ex.queue.push_back((0, 0x0100, true));
    ex.function_entries.insert(0x0100);
    let vectors: [u16; 5] = [0x0040, 0x0048, 0x0050, 0x0058, 0x0060];
    let mut k: usize = 0;
    while k < 5
        invariant
            k <= 5,
            vectors@ == seq![0x0040u16, 0x0048, 0x0050, 0x0058, 0x0060],
            ex.instructions@.dom().len() == 0,
            ex.queue@.len() == k + 1,
            ex.queue@[0] == (0u16, 0x0100u16, true),
            forall|m: int| 0 <= m < k ==> #[trigger] ex.queue@[m + 1] == (0u16, vectors@[m], true),
            ex.function_entries@.contains(0x0100),
            forall|m: int| 0 <= m < k ==> ex.function_entries@.contains(#[trigger] vectors@[m] as u32),
            forall|x: u32| #[trigger] ex.function_entries@.contains(x) ==> x < 0x8000 && is_root_entry(x),
            ex.jump_targets@.is_empty(),
            ex.starts@ == Set::<u32>::empty(),
        decreases 5 - k,
    {
        proof {
            lemma_u32_keys_ordered();
        }
        let v = vectors[k];
        proof {
            assert(k == 0 || k == 1 || k == 2 || k == 3 || k == 4);
            assert(is_root_entry(v as u32));
        }
        ex.queue.push_back((0, v, true));
        ex.function_entries.insert(v as u32);
        k = k + 1;
    }
    proof {
        let q = ex.queue@;
        assert(ex.instructions@.dom() =~= Set::empty());
        assert forall|r: u32| #[trigger] is_root_entry(r) implies reached_fn(rom.rom_data@, ex.instructions@.dom(), q, None)(r) by {
            let m: int = if r == 0x0100 { 0 } else if r == 0x0040 { 1 } else if r == 0x0048 { 2 }
                else if r == 0x0050 { 3 } else if r == 0x0058 { 4 } else { 5 };
            if m > 0 {
                assert(q[(m - 1) + 1] == (0u16, vectors@[m - 1], true));
            }
            assert(abs_addr_spec(q[m].0, q[m].1) == r);
        }
        assert forall|r: u32| is_root_entry(r) implies #[trigger] ex.function_entries@.contains(r) by {
            if r != 0x0100 {
                let m: int = if r == 0x0040 { 0 } else if r == 0x0048 { 1 } else if r == 0x0050 { 2 }
                    else if r == 0x0058 { 3 } else { 4 };
                assert(ex.function_entries@.contains(vectors@[m] as u32));
            }
        }
        assert forall|i: int| 0 <= i < q.len() implies (#[trigger] q[i]).1 < 0x8000 by {
            if i > 0 {
                assert(q[(i - 1) + 1] == (0u16, vectors@[i - 1], true));
            }
        }
        assert forall|i: int| #![trigger q[i]] 0 <= i < q.len() implies code_justified(
            rom.rom_data@,
            ex.instructions@, ex.starts@,
            abs_addr_spec(q[i].0, q[i].1),
        ) && (q[i].2 ==> entry_justified(rom.rom_data@, ex.instructions@, ex.starts@, abs_addr_spec(q[i].0, q[i].1))) by {
            if i > 0 {
                assert(q[(i - 1) + 1] == (0u16, vectors@[i - 1], true));
                assert(i - 1 == 0 || i - 1 == 1 || i - 1 == 2 || i - 1 == 3 || i - 1 == 4);
            }
            assert(is_root_entry(abs_addr_spec(q[i].0, q[i].1)));
        }
        assert(ex.inv(rom.rom_data@, None));
    }
    ex.drain(data, nb);
    ex.sweep(data, nb);
    let ghost e1 = ex.function_entries@;
    promote_cross_targets(&ex.instructions, &mut ex.function_entries);
    proof {
        let i = ex.instructions@;
        assert(ex.queue@ =~= Seq::<(u16, u16, bool)>::empty());
        lemma_obligations_grow(rom.rom_data@, i, i.dom(), e1, ex.jump_targets@, Seq::empty(), None,
            i, i.dom(), ex.function_entries@, ex.jump_targets@, Seq::empty(), None);
        assert(ex.queue@ == Seq::<(u16, u16, bool)>::empty());
        lemma_obligations_settled(rom.rom_data@, i, ex.function_entries@, ex.jump_targets@);
        lemma_swept_grow(i, e1, i, ex.function_entries@);
        let rd = rom.rom_data@;
        let st = ex.starts@;
        assert forall|a: u32|
            #[trigger] i.dom().contains(a) && !is_root_entry(a) && !(exists|x: u32|
                i.dom().contains(x) && #[trigger] successor_of(i[x], bank_count(rd), a))
            implies ex.function_entries@.contains(a) by {
            assert(code_justified(rd, i, st, a));
            assert(st.contains(a));
            assert(e1.contains(a));
        }
        assert forall|a: u32| #[trigger] i.dom().contains(a) implies code_origin(rd, i, a) by {
            assert(code_justified(rd, i, st, a));
            if st.contains(a) {
                assert(sweep_start(rd, i, a));
            }
        }
        assert forall|e: u32| #[trigger] ex.function_entries@.contains(e) implies entry_origin(rd, i, e)
            || promoted(i, ex.function_entries@, e) by {
            if e1.contains(e) {
                assert(entry_justified(rd, i, st, e));
                if st.contains(e) {
                    assert(sweep_start(rd, i, e));
                }
            }
        }
        assert forall|a: u32| #[trigger] sweep_candidate(rom.rom_data@, a) implies swept(
            i,
            ex.function_entries@,
            a,
        ) by {
            assert(swept(i, e1, a));
        }
        assert forall|e: u32| #[trigger] ex.function_entries@.contains(e) implies e < 0x4000_0000 by {

        }
    }
    DisasmResult {
        instructions: ex.instructions,
        function_entries: ex.function_entries,
        jump_targets: ex.jump_targets,
    }
}


/// The listing of a set of addresses in increasing order.
pub open spec fn sorted_listing(s: Set<u32>) -> Seq<u32> {
    choose|l: Seq<u32>| strictly_increasing(l) && l.to_set() == s
}

proof fn lemma_sorted_unique(x: Seq<u32>, y: Seq<u32>)
    requires
        strictly_increasing(x),
        strictly_increasing(y),
        x.to_set() == y.to_set(),
    ensures
        x == y,
    decreases x.len(),
{
    if x.len() == 0 {
        if y.len() > 0 {
            assert(x.to_set().contains(y[0]));
        }
        assert(x =~= y);
    } else {
        assert(y.to_set().contains(x[0]));
        assert(y.len() > 0);
        assert(x.to_set().contains(y[0]));
        let i = choose|i: int| 0 <= i < x.len() && x[i] == y[0];
        let j = choose|j: int| 0 <= j < y.len() && y[j] == x[0];
        if i > 0 {
            assert(x[0] < x[i]);
        }
        if j > 0 {
            assert(y[0] < y[j]);
        }
        assert(x[0] == y[0]);
        let x1 = x.drop_first();
        let y1 = y.drop_first();
        assert forall|v: u32| x1.to_set().contains(v) <==> y1.to_set().contains(v) by {
            if x1.to_set().contains(v) {
                let k = choose|k: int| 0 <= k < x1.len() && x1[k] == v;
                assert(x[k + 1] == v && x[0] < x[k + 1]);
                assert(y.to_set().contains(v));
                let m = choose|m: int| 0 <= m < y.len() && y[m] == v;
                assert(m != 0);
                assert(y1[m - 1] == v);
            }
            if y1.to_set().contains(v) {
                let k = choose|k: int| 0 <= k < y1.len() && y1[k] == v;
                assert(y[k + 1] == v && y[0] < y[k + 1]);
                assert(x.to_set().contains(v));
                let m = choose|m: int| 0 <= m < x.len() && x[m] == v;
                assert(m != 0);
                assert(x1[m - 1] == v);
            }
        }
        assert(x1.to_set() =~= y1.to_set());
        lemma_sorted_unique(x1, y1);
        assert(x.len() == y.len());
        assert forall|k: int| 0 <= k < x.len() implies x[k] == y[k] by {
            if k > 0 {
                assert(x[k] == x1[k - 1]);
                assert(y[k] == y1[k - 1]);
            }
        }
        assert(x =~= y);
    }
}

/// A strictly increasing listing of `s` is its sorted listing.
pub proof fn lemma_sorted_listing(l: Seq<u32>, s: Set<u32>)
    requires
        strictly_increasing(l),
        l.to_set() == s,
    ensures
        sorted_listing(s) == l,
{
    let c = sorted_listing(s);
    assert(strictly_increasing(c) && c.to_set() == s);
    lemma_sorted_unique(c, l);
}

/// The predicate "belongs to function `f`".
pub open spec fn owned_by(keys: Set<u32>, entries: Set<u32>, f: u32) -> spec_fn(u32) -> bool {
    |a: u32| owner(keys, entries, a) == f
}

/// Groups the decoded addresses by the function they belong to (see `owner`): each
/// function maps to its addresses in increasing order.
pub fn group_functions(
    instructions: &BTreeMap<u32, DecodedInstruction>,
    entries: &BTreeSet<u32>,
) -> (g: BTreeMap<u32, Vec<u32>>)
    ensures
        forall|f: u32| #[trigger] g@.dom().contains(f) <==> exists|a: u32|
            instructions@.dom().contains(a) && owner(instructions@.dom(), entries@, a) == f,
        forall|f: u32| #[trigger] g@.dom().contains(f) ==> g@[f]@ == sorted_listing(
            instructions@.dom(),
        ).filter(owned_by(instructions@.dom(), entries@, f)),
        strictly_increasing(sorted_listing(instructions@.dom())),
        sorted_listing(instructions@.dom()).to_set() == instructions@.dom(),
{
    proof {
        lemma_u32_keys_ordered();
    }
    let keys = sorted_keys(instructions);
    let owners = owners_of(&keys, entries);
    let ghost k = instructions@.dom();
    let ghost e = entries@;
    proof {
        lemma_sorted_listing(keys@, k);
    }
    let mut g: BTreeMap<u32, Vec<u32>> = BTreeMap::new();
    let mut i: usize = 0;
    while i < keys.len()
        invariant
            i <= keys@.len(),
            owners@.len() == keys@.len(),
            keys@.to_set() == k,
            k == instructions@.dom(),
            e == entries@,
            forall|m: int| 0 <= m < keys@.len() ==> owners@[m] == owner(k, e, #[trigger] keys@[m]),
            forall|f: u32| #[trigger] g@.dom().contains(f) <==> exists|m: int| 0 <= m < i && owners@[m] == f,
            forall|f: u32| #[trigger] g@.dom().contains(f) ==> g@[f]@ == keys@.take(i as int).filter(owned_by(k, e, f)),
            forall|f: u32| !g@.dom().contains(f) ==> #[trigger] keys@.take(i as int).filter(owned_by(k, e, f)) == Seq::<u32>::empty(),
        decreases keys@.len() - i,
    {
        proof {
            lemma_u32_keys_ordered();
        }
        let f = owners[i];
        let a = keys[i];
        let ghost g0 = g@;
        let mut v = match g.remove(&f) {
            Some(v) => v,
            None => Vec::new(),
        };
        proof {
            if g0.dom().contains(f) {
                assert(v@ == keys@.take(i as int).filter(owned_by(k, e, f)));
            } else {
                assert(v@ == keys@.take(i as int).filter(owned_by(k, e, f)));
            }
        }
        v.push(a);
        g.insert(f, v);
        proof {
            let t1 = keys@.take(i + 1);
            assert(t1.drop_last() == keys@.take(i as int));
            assert(t1.last() == a);
            reveal(Seq::filter);
            assert forall|f2: u32| #[trigger] t1.filter(owned_by(k, e, f2)) == (if f2 == f {
                keys@.take(i as int).filter(owned_by(k, e, f2)).push(a)
            } else {
                keys@.take(i as int).filter(owned_by(k, e, f2))
            }) by {
                assert(owned_by(k, e, f2)(a) == (f2 == f));
            }
            assert forall|f2: u32| #[trigger] g@.dom().contains(f2) <==> exists|m: int| 0 <= m < i + 1 && owners@[m] == f2 by {
                if f2 != f && g@.dom().contains(f2) {
                    assert(g0.dom().contains(f2));
                    let m = choose|m: int| 0 <= m < i && owners@[m] == f2;
                    assert(0 <= m < i + 1 && owners@[m] == f2);
                }
                if exists|m: int| 0 <= m < i + 1 && owners@[m] == f2 {
                    let m = choose|m: int| 0 <= m < i + 1 && owners@[m] == f2;
                    if m < i {
                        assert(g0.dom().contains(f2));
                    }
                }
            }
        }
        i = i + 1;
    }
    proof {
        assert(keys@.take(keys@.len() as int) == keys@);
        assert forall|f: u32| #[trigger] g@.dom().contains(f) <==> exists|a: u32|
            instructions@.dom().contains(a) && owner(instructions@.dom(), entries@, a) == f by {
            if g@.dom().contains(f) {
                let m = choose|m: int| 0 <= m < keys@.len() && owners@[m] == f;
                assert(keys@.to_set().contains(keys@[m]));
            }
            if exists|a: u32| instructions@.dom().contains(a) && owner(instructions@.dom(), entries@, a) == f {
                let a = choose|a: u32| instructions@.dom().contains(a) && owner(instructions@.dom(), entries@, a) == f;
                assert(keys@.to_set().contains(a));
                let m = choose|m: int| 0 <= m < keys@.len() && keys@[m] == a;
                assert(owners@[m] == f);
            }
        }
    }
    g
}

} // verus!
