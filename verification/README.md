# sw-ibm1130-asm

A two-pass assembler and a disassembler for the IBM 1130, verified with
[Verus](https://github.com/verus-lang/verus).

- `src/` is the verified library.
  - `grammar` says what a line of source means; `parser` reads lines.
  - `symtab` is pass 1, `encode` is pass 2, `disasm` the way back.
  - `isa` holds the machine's instructions as plain values, `text` characters,
    columns and numerals.
  - `laws`, `layout`, `placement`, `letters`, `positions`, `roundtrip` and
    `codec` prove what holds of all programs: the passes agree on every
    location, a label names the word at which its line begins, nothing counts
    from `END` on, which programs are refused and where their errors stand, and
    that what the disassembler writes assembles to the same bytes.
- `app/` joins the library to the instruction encoder and decoder of the
  `sw_ibm1130_isa` crate.
- `tests/` runs the library.

The library makes no assumption about the bits of an instruction: `assemble`
takes the encoder and `disassemble` the decoder as a function. Two facts about
`std` are trusted, both in `text`: what `String::push` does, and that `{:?}` of
a text depends on the text alone.
