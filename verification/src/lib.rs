//! Progress statistics for a Nintendo DS decompilation build.
//!
//! The library reads the artefacts of a NitroSDK-style build (the linked ELF,
//! the object files, the `.xMAP` link map and the `.lsf` link spec) as plain
//! text and bytes and computes how many bytes of code and data come from
//! decompiled C and from extracted assembly, and how many 32-bit words look
//! like hard-coded pointers into the loaded program.

pub mod build_analyzer;
pub mod elf_file;
pub mod elf_reader;
pub mod errors;
pub mod plan;
pub mod ranges;
pub mod source_mapper;
pub mod text;
pub mod totals;
pub mod xmap_file;
