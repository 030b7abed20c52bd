# minivm

A deterministic stack-based bytecode virtual machine with its assembler and
disassembler, written in Verus. The library under `src/` is verified; the
command-line front end under `app/` reads and writes files and drives it.

## Layout

- `src/isa.rs` — opcodes, the `.tbc` header, the byte encoding and decoding
  of instructions, the canonical assembly text of an instruction and the
  parser of one line of assembly. Laws: decoding what was encoded gives it
  back (and the converse), reading back the canonical text of an
  instruction gives the instruction, reading back a header gives the code,
  and a line reads the same whatever its ASCII case and surrounding
  whitespace.
- `src/text.rs` — whitespace, trimming, ASCII upper case, decimal and
  hexadecimal formatting and decimal `i64` parsing, each with its
  specification over `Seq<char>`.
- `src/assembler.rs` — `.tasm` text to file bytes, with line-numbered errors.
- `src/dis.rs` — bytecode to canonical text. Laws: `dis` then `asm` gives the
  same bytes, and `asm` then `dis` then `asm` is byte-identical.
- `src/vm.rs` — the machine: the effect of each instruction, one step, a
  whole run (as a sequence of trace lines and printed values), and the
  reports of the traps. Laws: a run only moves forward, ip-past-end is
  raised at exactly the end of the code, success comes only from `HALT`,
  bytes after an executed `HALT` are never read, and tracing changes
  nothing but the trace lines.
- `app/main.rs` — `minivm asm | run | dis`.

## Usage

```
minivm asm  <input.tasm> -o <output.tbc>
minivm run  <input.tbc> [--trace]
minivm dis  <input.tbc> [-o <output.tasm>]
```
