# uf2_tool

Converts ELF32 executables into UF2 firmware images for microcontroller flashing
(RP2040/RP2350 and similar boards), with the conversion logic verified by Verus.

## Layout

- `src/binary/` – byte-order decoding (`Encoding`), a bounds-checked cursor
  (`ByteReader`, `Reader`) and an appending `Writer`.
- `src/elf/` – the ELF identification block, file header and program header
  table, each with a specification of what parsing a byte sequence gives.
- `src/uf2.rs` – the 512-byte UF2 block format and its settings.
- `src/converter/` – loading the loadable segments into blocks keyed by their
  aligned target address, and rendering them as UF2 blocks in address order.
- `src/cli.rs` – the checks behind the command line options and the log level.
- `src/output.rs` – the names of the temporary files the output is written
  through, and the pattern startup cleanup removes.
- `src/text.rs` – decimal and hexadecimal rendering for the error messages.
- `app/main.rs` – the command line program: argument parsing, logging, reading
  the input and writing the output atomically through a temporary file.

## How it works

Only `LOAD` segments with file bytes are converted; each byte goes to its
physical address (`paddr`), inside the block of `payload_size` bytes (default
256, at most 476, a multiple of 4) whose address is the largest multiple of the
payload size not above it. Every address of a loaded segment must lie in the
32-bit address space, or the conversion fails. Blocks are zero-filled, a later segment overwrites an
earlier one where they overlap, and the UF2 blocks come out in increasing
address order, numbered from zero.
