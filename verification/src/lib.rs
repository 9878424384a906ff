//! Conversion of ELF32 executables into UF2 firmware images.
//!
//! The library parses ELF identification blocks, file headers and program
//! headers, gathers the bytes of every loadable segment into fixed-size UF2
//! payload blocks keyed by their target address, and renders each block as a
//! 512-byte UF2 record.

pub mod binary;
pub mod elf;
pub mod uf2;
pub mod converter;
pub mod cli;
pub mod text;
pub mod output;
