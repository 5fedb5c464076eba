# recompiler

A static recompiler for GameBoy (DMG) and GameBoy Color (CGB) ROMs: it reads the
cartridge header, disassembles the LR35902 code reachable from the entry point and the
interrupt vectors (plus whatever a sweep over the banks finds), groups it into functions,
and emits portable C sources (`game.h`, `game.c`, `dispatcher.c`, `rom_data.c`) for a C
runtime to link against.

The library is written in Verus and its behaviour is stated in contracts that Verus
proves:

- `src/rom.rs` — the cartridge header (`parse_rom_header`), with each refusal stated.
- `src/decode.rs` — the instruction decoder (`decode_instruction`,
  `decode_cb_instruction`): length, mnemonic and control flow of every opcode.
- `src/analysis.rs` — the exploration (`analyze_rom`): every decoded instruction is the
  decoding of the image at its address, every successor of decoded code is explored,
  everything found is accounted for (code and entries by where they come from, sweep
  starts by the sweep's walk, promoted entries by a jump from another function), the
  sweep decodes every code-looking position it meets and makes the code it alone finds
  function entries, and no
  jump leaves its function except onto a function entry; `group_functions` groups
  instructions by function.
- `src/codegen.rs` — the C text of each instruction (`translate_to_c`,
  `translate_cb_to_c`) and of the four generated files (`generate_c_project`).
- `src/text.rs` — hexadecimal and decimal rendering of numbers.
- `src/laws.rs` — properties that span several functions: address layout, function
  grouping, how jumps, calls, returns and CB shifts are translated, the layout of game.c,
  labels for local jumps and their distinctness, the statements of every decodable
  opcode, dispatcher cases and the byte listing of rom_data.c.

`app/main.rs` is the command-line program: argument parsing, file I/O and printing.
