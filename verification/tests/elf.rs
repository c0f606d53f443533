use build_analyzer::build_analyzer::{analyze_build, analyze_parsed, list_hardcoded_pointers, Stats};
use build_analyzer::elf_file::{ElfFile, ProgramHeader, Rel, Rela};
use build_analyzer::elf_reader::{check_elf_header, elf_header_parses};
use build_analyzer::errors::Error;
use build_analyzer::source_mapper::SourceMap;
use build_analyzer::xmap_file::parse_xmap;
use elf::endian::LittleEndian;
use elf::ElfBytes;

struct Sec {
    name: &'static str,
    sh_type: u32,
    addr: u32,
    link: u32,
    entsize: u32,
    data: Vec<u8>,
}

struct SymSpec {
    name: &'static str,
    value: u32,
    size: u32,
    shndx: u16,
    info: u8,
}

fn put16(v: &mut Vec<u8>, x: u16) {
    v.extend_from_slice(&x.to_le_bytes());
}

fn put32(v: &mut Vec<u8>, x: u32) {
    v.extend_from_slice(&x.to_le_bytes());
}

/// A little-endian ELF32 relocatable with the given machine, segments
/// (vaddr, memsz), `.text` data, symbols and relocations.
fn build_elf(
    machine: u16,
    segments: &[(u32, u32)],
    text: Vec<u8>,
    syms: &[SymSpec],
    rels: &[(u32, u32)],
    relas: &[(u32, u32, i32)],
    with_symtab: bool,
) -> Vec<u8> {
    let mut strtab = vec![0u8];
    let mut symtab = vec![0u8; 16];
    for s in syms {
        let off = strtab.len() as u32;
        strtab.extend_from_slice(s.name.as_bytes());
        strtab.push(0);
        put32(&mut symtab, off);
        put32(&mut symtab, s.value);
        put32(&mut symtab, s.size);
        symtab.push(s.info);
        symtab.push(0);
        put16(&mut symtab, s.shndx);
    }
    let mut rel = Vec::new();
    for (off, info) in rels {
        put32(&mut rel, *off);
        put32(&mut rel, *info);
    }
    let mut rela = Vec::new();
    for (off, info, add) in relas {
        put32(&mut rela, *off);
        put32(&mut rela, *info);
        put32(&mut rela, *add as u32);
    }
    let mut secs = vec![Sec { name: "", sh_type: 0, addr: 0, link: 0, entsize: 0, data: vec![] }];
    secs.push(Sec { name: ".text", sh_type: 1, addr: 0, link: 0, entsize: 0, data: text });
    if with_symtab {
        secs.push(Sec { name: ".symtab", sh_type: 2, addr: 0, link: 3, entsize: 16, data: symtab });
        secs.push(Sec { name: ".strtab", sh_type: 3, addr: 0, link: 0, entsize: 0, data: strtab });
    }
    secs.push(Sec { name: ".rel.text", sh_type: 9, addr: 0, link: 0, entsize: 8, data: rel });
    secs.push(Sec { name: ".rela.text", sh_type: 4, addr: 0, link: 0, entsize: 12, data: rela });
    let phoff = 52u32;
    let mut offset = phoff + 32 * segments.len() as u32;
    let mut body = Vec::new();
    let mut offsets = Vec::new();
    for s in &secs {
        offsets.push(offset + body.len() as u32);
        body.extend_from_slice(&s.data);
        while body.len() % 4 != 0 {
            body.push(0);
        }
    }
    offset += body.len() as u32;
    let shoff = offset;
    let mut out = vec![0x7f, b'E', b'L', b'F', 1, 1, 1, 0, 0, 0, 0, 0, 0, 0, 0, 0];
    put16(&mut out, 1);
    put16(&mut out, machine);
    put32(&mut out, 1);
    put32(&mut out, 0);
    put32(&mut out, if segments.is_empty() { 0 } else { phoff });
    put32(&mut out, shoff);
    put32(&mut out, 0);
    put16(&mut out, 52);
    put16(&mut out, 32);
    put16(&mut out, segments.len() as u16);
    put16(&mut out, 40);
    put16(&mut out, secs.len() as u16);
    put16(&mut out, 0);
    for (vaddr, memsz) in segments {
        for x in [1, 0, *vaddr, *vaddr, *memsz, *memsz, 5, 4] {
            put32(&mut out, x);
        }
    }
    out.extend_from_slice(&body);
    for (i, s) in secs.iter().enumerate() {
        let _ = s.name;
        let size = s.data.len() as u32;
        for x in [0, s.sh_type, 0, s.addr, offsets[i], size, s.link, 0, 4, s.entsize] {
            put32(&mut out, x);
        }
    }
    out
}

fn sample_object() -> Vec<u8> {
    // words: a pointer into the main program, and a small constant
    let text = vec![0x10, 0x00, 0x00, 0x02, 0x05, 0x00, 0x00, 0x00];
    build_elf(
        40,
        &[],
        text,
        &[
            SymSpec { name: "foo", value: 0, size: 8, shndx: 1, info: 0x12 },
            SymSpec { name: "zero", value: 0, size: 0, shndx: 1, info: 0x11 },
        ],
        &[(0, 0x102), (4, 0x102)],
        &[(0, 0x102, -4)],
        true,
    )
}

fn sample_main() -> Vec<u8> {
    build_elf(40, &[(0x0200_0000, 0x1000), (0x0200_0800, 0x1000)], vec![0; 4], &[], &[], &[], true)
}

#[test]
fn parse_reads_what_the_elf_crate_reads() {
    let data = sample_object();
    let f = ElfFile::parse(&data).unwrap();
    let b = ElfBytes::<LittleEndian>::minimal_parse(&data).unwrap();
    let shdrs: Vec<_> = b.section_headers().unwrap().iter().collect();
    assert_eq!(f.sections.len(), shdrs.len());
    for (mine, theirs) in f.sections.iter().zip(shdrs.iter()) {
        assert_eq!(mine.shdr.sh_type, theirs.sh_type);
        assert_eq!(mine.shdr.sh_offset, theirs.sh_offset);
        assert_eq!(mine.data, b.section_data(theirs).unwrap().0.to_vec());
    }
    assert_eq!(f.sections[1].data, vec![0x10, 0x00, 0x00, 0x02, 0x05, 0x00, 0x00, 0x00]);
    let names: Vec<&str> = f.symbols.iter().map(|s| s.name.as_str()).collect();
    assert_eq!(names, vec!["", "foo", "zero"]);
    assert_eq!(f.symbols[1].sym.st_size, 8);
    assert_eq!(f.symbols[1].sym.st_shndx, 1);
    assert_eq!(f.symbols[1].sym.st_bind, 1);
    assert_eq!(f.symbols[1].sym.st_symtype, 2);
    assert_eq!(f.symbols[1].sym.st_vis, 0);
    assert_eq!(
        f.rels,
        vec![
            Rel { r_offset: 0, r_sym: 1, r_type: 2 },
            Rel { r_offset: 4, r_sym: 1, r_type: 2 }
        ]
    );
    assert_eq!(f.relas, vec![Rela { r_offset: 0, r_sym: 1, r_type: 2, r_addend: -4 }]);
    assert!(f.segments.is_empty());
}

#[test]
fn parse_reads_segments() {
    let f = ElfFile::parse(&sample_main()).unwrap();
    assert_eq!(f.segments.len(), 2);
    assert_eq!(
        f.segments[1],
        ProgramHeader {
            p_type: 1,
            p_offset: 0,
            p_vaddr: 0x0200_0800,
            p_paddr: 0x0200_0800,
            p_filesz: 0x1000,
            p_memsz: 0x1000,
            p_flags: 5,
            p_align: 4,
        }
    );
}

#[test]
fn parse_refuses_other_machines() {
    let data = build_elf(3, &[], vec![], &[], &[], &[], true);
    assert!(matches!(ElfFile::parse(&data), Err(Error::NotArm32)));
}

#[test]
fn parse_refuses_elf64() {
    let mut data = vec![0x7f, b'E', b'L', b'F', 2, 1, 1, 0, 0, 0, 0, 0, 0, 0, 0, 0];
    data.extend_from_slice(&[1, 0, 40, 0, 1, 0, 0, 0]);
    data.extend_from_slice(&[0u8; 40]);
    assert!(elf_header_parses(&data));
    assert!(matches!(ElfFile::parse(&data), Err(Error::NotElf32)));
}

#[test]
fn parse_refuses_what_is_not_elf() {
    assert!(!elf_header_parses(b"not an elf file at all, clearly not one"));
    assert!(matches!(ElfFile::parse(b"not an elf file at all, clearly not one"), Err(Error::ElfParse(_))));
    assert!(matches!(ElfFile::parse(&[]), Err(Error::ElfParse(_))));
}

#[test]
fn parse_needs_a_symbol_table() {
    let data = build_elf(40, &[], vec![], &[], &[], &[], false);
    assert!(matches!(ElfFile::parse(&data), Err(Error::NoSymtab)));
}

fn sample_source_map() -> SourceMap {
    let mut sm = SourceMap::new();
    sm.add_object("/proj/src/foo", "/proj/", true, false).unwrap();
    sm
}

#[test]
fn analyze_build_counts_bytes_and_pointers() {
    let sm = sample_source_map();
    let xmap = "  02000000 00000008 .text foo\t(foo.o)\n  02000008 00000004 .text zero\t(foo.o)\n";
    let stats = analyze_build(xmap, &sample_main(), &sm, &[sample_object()]).unwrap();
    assert_eq!(
        stats,
        Stats {
            c_code_bytes: 8,
            c_data_bytes: 0,
            asm_code_bytes: 0,
            asm_data_bytes: 0,
            resolved_pointers: 3,
            hardcoded_pointers: 1,
        }
    );
}

#[test]
fn analyze_build_classifies_data_sections() {
    let sm = sample_source_map();
    let xmap = "  02000000 00000008 .rodata foo\t(foo.o)\n";
    let stats = analyze_build(xmap, &sample_main(), &sm, &[sample_object()]).unwrap();
    assert_eq!(stats.c_data_bytes, 8);
    assert_eq!(stats.c_code_bytes, 0);
}

#[test]
fn assembly_symbols_count_only_when_named_like_their_section() {
    let mut sm = SourceMap::new();
    sm.add_object("/proj/asm/foo", "/proj/", false, true).unwrap();
    let xmap = "  02000000 00000008 .text foo\t(foo.o)\n";
    let stats = analyze_build(xmap, &sample_main(), &sm, &[sample_object()]).unwrap();
    assert_eq!(stats.asm_code_bytes, 0);
    assert_eq!(stats.hardcoded_pointers, 0);
    assert_eq!(stats.resolved_pointers, 3);
    let xmap2 = "  02000000 00000008 foo foo\t(foo.o)\n";
    let stats2 = analyze_build(xmap2, &sample_main(), &sm, &[sample_object()]).unwrap();
    // "foo" is neither a code nor a data section: no bytes count, but the
    // symbol's words are still searched for pointers.
    assert_eq!(
        stats2,
        Stats {
            c_code_bytes: 0,
            c_data_bytes: 0,
            asm_code_bytes: 0,
            asm_data_bytes: 0,
            resolved_pointers: 3,
            hardcoded_pointers: 1,
        }
    );
}

#[test]
fn a_later_noload_line_takes_the_bytes_away() {
    let sm = sample_source_map();
    let xmap = "  02000000 00000008 .text foo\t(foo.o)\n  02000100 00000008 .bss foo\t(foo.o)\n";
    let stats = analyze_build(xmap, &sample_main(), &sm, &[sample_object()]).unwrap();
    assert_eq!(
        stats,
        Stats {
            c_code_bytes: 0,
            c_data_bytes: 0,
            asm_code_bytes: 0,
            asm_data_bytes: 0,
            resolved_pointers: 3,
            hardcoded_pointers: 1,
        }
    );
}

#[test]
fn a_c_symbol_without_bytes_fails_the_analysis() {
    let sm = sample_source_map();
    let obj = build_elf(
        40,
        &[],
        vec![],
        &[SymSpec { name: "foo", value: 0, size: 8, shndx: 1, info: 0x11 }],
        &[],
        &[],
        true,
    );
    let xmap = "  02000000 00000008 .bss foo\t(foo.o)\n";
    assert_eq!(analyze_build(xmap, &sample_main(), &sm, &[obj]), Err(Error::BadSlice));
}

#[test]
fn analyze_build_with_no_objects_counts_nothing() {
    let sm = SourceMap::new();
    let stats = analyze_build("", &sample_main(), &sm, &[]).unwrap();
    assert_eq!(stats, Stats::default());
}

#[test]
fn analyze_build_fails_on_a_bad_main_elf() {
    let sm = sample_source_map();
    assert!(matches!(analyze_build("", b"nope", &sm, &[sample_object()]), Err(Error::ElfParse(_))));
}

#[test]
fn analyze_build_fails_on_a_bad_object() {
    let sm = sample_source_map();
    let obj = build_elf(40, &[], vec![], &[], &[], &[], false);
    assert!(matches!(analyze_build("", &sample_main(), &sm, &[obj]), Err(Error::NoSymtab)));
}

#[test]
fn analyze_build_fails_when_a_symbol_leaves_its_section() {
    let sm = sample_source_map();
    let obj = build_elf(
        40,
        &[],
        vec![0; 4],
        &[SymSpec { name: "foo", value: 0, size: 8, shndx: 1, info: 0x12 }],
        &[],
        &[],
        true,
    );
    let xmap = "  02000000 00000008 .text foo\t(foo.o)\n";
    assert_eq!(analyze_build(xmap, &sample_main(), &sm, &[obj]), Err(Error::BadSlice));
}

#[test]
fn analyze_parsed_matches_analyze_build() {
    let sm = sample_source_map();
    let xmap_text = "  02000000 00000008 .text foo\t(foo.o)\n";
    let xmap = parse_xmap(xmap_text, &sm);
    let main = ElfFile::parse(&sample_main()).unwrap();
    let obj = ElfFile::parse(&sample_object()).unwrap();
    let a = analyze_parsed(&xmap, &main, &sm, &[obj]).unwrap();
    let b = analyze_build(xmap_text, &sample_main(), &sm, &[sample_object()]).unwrap();
    assert_eq!(a, b);
    assert_eq!(a.resolved_pointers, 3);
}

fn second_object() -> Vec<u8> {
    let text = vec![0x00, 0x09, 0x00, 0x02, 0x00, 0x00, 0x00, 0x03, 0xAA, 0xBB, 0xCC, 0xDD];
    build_elf(
        40,
        &[],
        text,
        &[SymSpec { name: "kData", value: 0, size: 12, shndx: 1, info: 0x11 }],
        &[(0, 0x102)],
        &[],
        true,
    )
}

#[test]
fn statistics_do_not_depend_on_object_order() {
    let xmap = "  02000000 00000008 .text foo\t(foo.o)\n  02000100 0000000C .rodata kData\t(bar.o)\n";
    let mut sm1 = SourceMap::new();
    sm1.add_object("/proj/src/foo", "/proj/", true, false).unwrap();
    sm1.add_object("/proj/src/bar", "/proj/", true, false).unwrap();
    let mut sm2 = SourceMap::new();
    sm2.add_object("/proj/src/bar", "/proj/", true, false).unwrap();
    sm2.add_object("/proj/src/foo", "/proj/", true, false).unwrap();
    let a = analyze_build(xmap, &sample_main(), &sm1, &[sample_object(), second_object()]).unwrap();
    let b = analyze_build(xmap, &sample_main(), &sm2, &[second_object(), sample_object()]).unwrap();
    assert_eq!(a, b);
    assert_eq!(
        a,
        Stats {
            c_code_bytes: 8,
            c_data_bytes: 12,
            asm_code_bytes: 0,
            asm_data_bytes: 0,
            resolved_pointers: 4,
            hardcoded_pointers: 2,
        }
    );
}

#[test]
fn listed_pointers_match_the_count() {
    let xmap_text = "  02000000 00000008 .text foo\t(foo.o)\n  02000100 0000000C .rodata kData\t(bar.o)\n";
    let mut sm = SourceMap::new();
    sm.add_object("/proj/src/foo", "/proj/", true, false).unwrap();
    sm.add_object("/proj/src/bar", "/proj/", true, false).unwrap();
    let xmap = parse_xmap(xmap_text, &sm);
    let main = ElfFile::parse(&sample_main()).unwrap();
    let objs = [
        ElfFile::parse(&sample_object()).unwrap(),
        ElfFile::parse(&second_object()).unwrap(),
    ];
    let sites = list_hardcoded_pointers(&xmap, &main, &sm, &objs).unwrap();
    let stats = analyze_parsed(&xmap, &main, &sm, &objs).unwrap();
    assert_eq!(sites.len(), stats.hardcoded_pointers);
    assert_eq!(sites, vec![(0x0200_0000, 0x0200_0010), (0x0200_0100, 0x0200_0900)]);
}

#[test]
fn listing_fails_where_the_analysis_fails() {
    let sm = sample_source_map();
    let obj = build_elf(
        40,
        &[],
        vec![0; 4],
        &[SymSpec { name: "foo", value: 0, size: 8, shndx: 1, info: 0x12 }],
        &[],
        &[],
        true,
    );
    let xmap = parse_xmap("  02000000 00000008 .text foo\t(foo.o)\n", &sm);
    let main = ElfFile::parse(&sample_main()).unwrap();
    let objs = [ElfFile::parse(&obj).unwrap()];
    assert_eq!(list_hardcoded_pointers(&xmap, &main, &sm, &objs), Err(Error::BadSlice));
    assert_eq!(analyze_parsed(&xmap, &main, &sm, &objs), Err(Error::BadSlice));
}

#[test]
fn header_checks() {
    assert_eq!(check_elf_header(true, 40), Ok(()));
    assert_eq!(check_elf_header(false, 40), Err(Error::NotElf32));
    assert_eq!(check_elf_header(false, 3), Err(Error::NotElf32));
    assert_eq!(check_elf_header(true, 3), Err(Error::NotArm32));
}
