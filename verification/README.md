# build_analyzer

Progress statistics for a Nintendo DS decompilation project built with a
NitroSDK-like toolchain: how many bytes of code and data come from
decompiled C and from extracted assembly, how many pointers are properly
linked through relocations, and how many aligned 32-bit words look like
hard-coded pointers into the loaded program.

The library (`src/`) is verified with Verus:

- `text` — characters, white space, line splitting, substring removal.
- `xmap_file` — the grammar of `.xMAP` link-map lines and `parse_xmap`.
- `source_mapper` — the grammar of `.lsf` object lines and the source map.
- `elf_file`, `elf_reader` — ELF files as plain values, read through the `elf` crate.
- `ranges` — loaded address ranges of the program segments.
- `build_analyzer` — pointer counting and listing, and the statistics of a build.
- `totals` — the statistics as saturated sums, independent of object order.
- `plan` — the analyses a command line asks for and the files they read.

`app/` is the command-line program: it reads the files, calls the library
and prints the report. It warns about link-map sections of unknown type;
a debug build also logs each possible hard-coded pointer with its address.
