use build_analyzer::build_analyzer::{count_hardcoded_pointers, hardcoded_pointer_sites, in_some_range};
use build_analyzer::elf_file::{ElfFile, NamedSymbol, SectionHeader, SectionHeaderWithData, Symbol};
use build_analyzer::errors::Error;
use build_analyzer::xmap_file::{SectionType, XmapSymbol};

fn empty_shdr() -> SectionHeader {
    SectionHeader {
        sh_name: 0,
        sh_type: 0,
        sh_flags: 0,
        sh_addr: 0,
        sh_offset: 0,
        sh_size: 0,
        sh_link: 0,
        sh_info: 0,
        sh_addralign: 0,
        sh_entsize: 0,
    }
}

fn one_section_file(data: Vec<u8>, sh_addr: u64) -> ElfFile {
    let mut shdr = empty_shdr();
    shdr.sh_addr = sh_addr;
    ElfFile {
        sections: vec![SectionHeaderWithData { data, shdr }],
        segments: vec![],
        symbols: vec![],
        rels: vec![],
        relas: vec![],
    }
}

fn named(st_shndx: u16, st_value: u64, st_size: u64) -> NamedSymbol {
    NamedSymbol {
        name: "foo".into(),
        sym: Symbol { st_name: 0, st_shndx, st_bind: 0, st_symtype: 0, st_vis: 0, st_value, st_size },
    }
}

fn rodata_sym(size: usize) -> XmapSymbol {
    XmapSymbol { section_name: ".rodata".into(), section_type: SectionType::Data, size, addr: 0x02000000 }
}

#[test]
fn test_count_hardcoded_pointers() {
    let sym = NamedSymbol {
        name: "foo".into(),
        sym: Symbol { st_name: 0, st_shndx: 0, st_bind: 0, st_symtype: 0, st_vis: 0, st_value: 0, st_size: 8 },
    };
    let rxsym = XmapSymbol {
        section_name: ".rodata".into(),
        section_type: SectionType::Data,
        size: 8,
        addr: 0x02000000,
    };
    let phdr_ranges = vec![(0x02000000u64, 0x02000800u64)];
    let elffile = ElfFile {
        sections: vec![SectionHeaderWithData {
            data: vec![0x09u8, 0x00u8, 0x00u8, 0x02u8, 0x00u8, 0x00u8, 0x00u8, 0x00u8],
            shdr: SectionHeader {
                sh_name: 0,
                sh_type: 0,
                sh_flags: 0,
                sh_addr: 0,
                sh_offset: 0,
                sh_size: 0,
                sh_link: 0,
                sh_info: 0,
                sh_addralign: 0,
                sh_entsize: 0,
            },
        }],
        segments: vec![],
        symbols: vec![],
        rels: vec![],
        relas: vec![],
    };
    let count = count_hardcoded_pointers(&sym, &elffile, &phdr_ranges, &rxsym).unwrap();
    assert_eq!(count, 1);
}

#[test]
fn words_below_the_pointer_floor_do_not_count() {
    // 0x00FF_FFFF lies in the range but below 0x0100_0000.
    let f = one_section_file(vec![0xFF, 0xFF, 0xFF, 0x00, 0x00, 0x00, 0x00, 0x01], 0);
    let ranges = vec![(0u64, 0x0200_0000u64)];
    let n = count_hardcoded_pointers(&named(0, 0, 8), &f, &ranges, &rodata_sym(8)).unwrap();
    assert_eq!(n, 1);
}

#[test]
fn range_ends_are_half_open() {
    let f = one_section_file(
        vec![0x00, 0x00, 0x00, 0x02, 0x00, 0x08, 0x00, 0x02, 0xFF, 0x07, 0x00, 0x02],
        0,
    );
    let ranges = vec![(0x0200_0000u64, 0x0200_0800u64)];
    let n = count_hardcoded_pointers(&named(0, 0, 12), &f, &ranges, &rodata_sym(12)).unwrap();
    assert_eq!(n, 2);
}

#[test]
fn a_trailing_partial_word_is_ignored() {
    let f = one_section_file(vec![0x00, 0x00, 0x00, 0x02, 0x00, 0x00, 0x00], 0);
    let ranges = vec![(0x0200_0000u64, 0x0300_0000u64)];
    let n = count_hardcoded_pointers(&named(0, 0, 7), &f, &ranges, &rodata_sym(7)).unwrap();
    assert_eq!(n, 1);
}

#[test]
fn symbol_offsets_are_relative_to_the_section_address() {
    let f = one_section_file(vec![0, 0, 0, 0, 0x10, 0x00, 0x00, 0x02], 0x100);
    let ranges = vec![(0x0200_0000u64, 0x0300_0000u64)];
    let sym = named(0, 0x104, 4);
    assert_eq!(f.symbol_data(&sym).unwrap(), vec![0x10, 0x00, 0x00, 0x02]);
    let n = count_hardcoded_pointers(&sym, &f, &ranges, &rodata_sym(4)).unwrap();
    assert_eq!(n, 1);
}

#[test]
fn symbol_before_its_section_starts_at_offset_zero() {
    let f = one_section_file(vec![1, 2, 3, 4], 0x100);
    assert_eq!(f.symbol_data(&named(0, 0x10, 2)).unwrap(), vec![1, 2]);
}

#[test]
fn unknown_section_is_an_error() {
    let f = one_section_file(vec![0; 8], 0);
    let ranges = vec![(0u64, 1u64)];
    assert_eq!(f.symbol_data(&named(1, 0, 4)), Err(Error::UnrecognizedSection));
    assert_eq!(
        count_hardcoded_pointers(&named(1, 0, 4), &f, &ranges, &rodata_sym(4)),
        Err(Error::UnrecognizedSection)
    );
}

#[test]
fn symbol_past_its_section_is_an_error() {
    let f = one_section_file(vec![0; 8], 0);
    let ranges = vec![(0u64, 1u64)];
    assert_eq!(f.symbol_data(&named(0, 4, 8)), Err(Error::BadSlice));
    assert_eq!(f.symbol_data(&named(0, 0, u64::MAX)), Err(Error::BadSlice));
    assert_eq!(
        count_hardcoded_pointers(&named(0, 4, 8), &f, &ranges, &rodata_sym(8)),
        Err(Error::BadSlice)
    );
}

#[test]
fn in_some_range_checks_every_range() {
    let ranges = vec![(10u64, 20u64), (30u64, 40u64)];
    assert!(in_some_range(&ranges, 10));
    assert!(!in_some_range(&ranges, 20));
    assert!(in_some_range(&ranges, 39));
    assert!(!in_some_range(&ranges, 25));
    assert!(!in_some_range(&[], 25));
}

#[test]
fn pointer_sites_give_address_and_value() {
    let f = one_section_file(
        vec![0x00, 0x00, 0x00, 0x02, 0x44, 0x33, 0x22, 0x11, 0x10, 0x00, 0x00, 0x02],
        0,
    );
    let ranges = vec![(0x0200_0000u64, 0x0300_0000u64)];
    let sites = hardcoded_pointer_sites(&named(0, 0, 12), &f, &ranges, &rodata_sym(12)).unwrap();
    assert_eq!(sites, vec![(0x0200_0000, 0x0200_0000), (0x0200_0008, 0x0200_0010)]);
    let n = count_hardcoded_pointers(&named(0, 0, 12), &f, &ranges, &rodata_sym(12)).unwrap();
    assert_eq!(sites.len(), n);
}

#[test]
fn pointer_site_addresses_wrap() {
    let f = one_section_file(vec![0, 0, 0, 0, 0x00, 0x00, 0x00, 0x02], 0);
    let ranges = vec![(0x0200_0000u64, 0x0300_0000u64)];
    let mut rx = rodata_sym(8);
    rx.addr = u64::MAX - 1;
    let sites = hardcoded_pointer_sites(&named(0, 0, 8), &f, &ranges, &rx).unwrap();
    assert_eq!(sites, vec![(2, 0x0200_0000)]);
}

#[test]
fn pointer_sites_fail_as_the_count_does() {
    let f = one_section_file(vec![0; 8], 0);
    let ranges = vec![(0u64, 1u64)];
    assert_eq!(
        hardcoded_pointer_sites(&named(1, 0, 4), &f, &ranges, &rodata_sym(4)),
        Err(Error::UnrecognizedSection)
    );
    assert_eq!(
        hardcoded_pointer_sites(&named(0, 4, 8), &f, &ranges, &rodata_sym(8)),
        Err(Error::BadSlice)
    );
}
