# xr

Fast extraction of cross-references from program images, with verified logic.

The library loads ELF, single-architecture Mach-O, PE, COFF and dyld shared-cache
images into address-mapped segments, decodes their code (x86-64, AArch64, ARM and
Thumb) and their relocation metadata, and reports which address refers to which.
What a function returns is stated in its contract, which Verus proves.

## Layout

- `src/loader/`: from the headers of a file to segments, symbols, import slots and
  relocated pointers. `object.rs` is the boundary to the object-file parser.
- `src/arch/`: instruction decoders and scanners. `x86_insn.rs` is the boundary to
  the x86 decoder.
- `src/pass.rs`: what a segment is scanned for at each depth, and which references
  are kept.
- `src/rust.rs`, `src/report.rs`, `src/disasm.rs`, `src/output.rs`: string literals,
  context, records, and the text, CSV and JSON Lines formats.
- `src/score.rs`, `src/pairs.rs`: comparison with a ground truth.
- `src/shard.rs`: splitting address ranges among workers.
- `tests/`: tests on the compiled library.
- `app/`: the command line: file mapping, threads, JSON, and the AArch64
  disassembler.

## Contracts

Addresses are 64-bit and wrap. What a scanner returns is stated as a sequence over
the bytes of the region and the segments of the image (`linear_refs`, `paired_refs`,
`x86_refs`, `a32_refs`, `thumb_refs`); what loading returns is stated over the
headers (`loads_elf`, `loads_macho`, `loads_pe`, `loads_coff`). Functions whose names
start with `law_` state what holds of several functions together: that a deeper pass
finds all that a shallower one finds, that every reference leads to mapped memory or
to an import slot, that shards pass over no aligned address, that printed fields
read back.

What the outside crates return is trusted, and named where it takes pages to state:
the functions with `external_body` in `object.rs`, `x86_insn.rs`, `pairs.rs`,
`slots.rs` and `rust.rs`, and the specification of `String::push` in `text.rs`.

## Depths

| Depth | Finds |
|---|---|
| `scan` | pointer-sized values in data |
| `linear` | also what each instruction refers to by itself |
| `paired` | also ADRP pairs and jump tables (AArch64), constants in registers (x86-64) |
