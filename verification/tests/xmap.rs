use build_analyzer::source_mapper::SourceMap;
use build_analyzer::text::str_chars;
use build_analyzer::xmap_file::{match_xmap_line, parse_xmap, SectionType};
use regex::Regex;

const XMAP_PATTERN: &str = r"^\s*(?<addr>[0-9A-F]{8})\s+(?<size>[0-9A-F]{8})\s+(?<section>\S+)\s+(?<name>\S+)\t\((?<ofile>\S+)\.o\)$";

fn captures_of_matcher(line: &str) -> Option<(String, String, String, String, String)> {
    let chars = str_chars(line);
    let sp = match_xmap_line(&chars)?;
    let take = |a: usize, b: usize| chars[a..b].iter().collect::<String>();
    Some((
        take(sp.addr, sp.addr + 8),
        take(sp.size, sp.size + 8),
        take(sp.section_start, sp.section_end),
        take(sp.name_start, sp.name_end),
        take(sp.name_end + 2, chars.len() - 3),
    ))
}

fn captures_of_regex(re: &Regex, line: &str) -> Option<(String, String, String, String, String)> {
    let c = re.captures(line)?;
    Some((
        c["addr"].to_string(),
        c["size"].to_string(),
        c["section"].to_string(),
        c["name"].to_string(),
        c["ofile"].to_string(),
    ))
}

#[test]
fn symbol_line_matches_like_the_link_map_grammar() {
    let re = Regex::new(XMAP_PATTERN).unwrap();
    let lines = [
        "  02000000 00000010 .text main\t(main.o)",
        "02000000 00000010 .text main\t(main.o)",
        "\t02000000\t00000010\t.text\tmain\t(main.o)",
        "  02000000 00000010 .text main (main.o)",
        "  02000000 00000010 .text main\t(main.o) ",
        "  02000000 00000010 .text main\t(.o)",
        "  02000000 00000010 .text main\t(a.o.o)",
        "  02000000 00000010 .text main\t(a)b.o)",
        "  0200000 00000010 .text main\t(main.o)",
        "  020000000 00000010 .text main\t(main.o)",
        "  0200000a 00000010 .text main\t(main.o)",
        "  02000000 0000001G .text main\t(main.o)",
        "  02000000  00000010  .text   main\t(x/y.o)",
        "  02000000 00000010 .text\u{3000}main\t(main.o)",
        "  02000000 00000010 .text main\t\t(main.o)",
        "  02000000 00000010 main\t(main.o)",
        "  02000000 00000010 .text ma in\t(main.o)",
        "  02000000 00000010 .text main\t(ma in.o)",
        "  FFFFFFFF ABCDEF01 .rodata _Z3foov\t(lib_a.o)",
        "",
        "# Linker map",
        "  02000000 00000010 .text main\t(main.obj)",
        "  02000000 00000010 .text\u{a0}main\t(main.o)",
    ];
    for line in lines {
        assert_eq!(captures_of_matcher(line), captures_of_regex(&re, line), "line {line:?}");
    }
}

#[test]
fn section_types_follow_section_names() {
    for n in [".text", ".init", ".itcm", ".sinit", ".wram"] {
        assert_eq!(SectionType::from_name(n), SectionType::Code);
    }
    for n in [".data", ".rodata", ".sdata", ".dtcm", ".exception", ".version"] {
        assert_eq!(SectionType::from_name(n), SectionType::Data);
    }
    for n in [".bss", ".dtcm.bss"] {
        assert_eq!(SectionType::from_name(n), SectionType::NoLoad);
    }
    for n in [".ctor", "", ".text.x", "text"] {
        assert_eq!(SectionType::from_name(n), SectionType::Unknown);
    }
}

#[test]
fn section_type_words() {
    assert_eq!(SectionType::Code.to_str(), "code");
    assert_eq!(SectionType::Data.to_str(), "data");
    assert_eq!(SectionType::NoLoad.to_str(), "noload");
    assert_eq!(SectionType::Unknown.to_str(), "unknown");
}

fn sample_source_map() -> SourceMap {
    let mut sm = SourceMap::new();
    sm.add_object("/proj/src/main", "/proj/", true, false).unwrap();
    sm.add_object("/proj/asm/boot", "/proj/", false, true).unwrap();
    sm
}

#[test]
fn parse_xmap_files_symbols_by_object_and_name() {
    let sm = sample_source_map();
    let text = "# Memory map\n\
                \x20 02000000 00000010 .text main\t(main.o)\n\
                \x20 02000010 00000004 .rodata kTable\t(main.o)\r\n\
                \x20 02000020 00000008 .text boot_entry\t(boot.o)\n\
                \x20 02000030 00000000 .text empty\t(main.o)\n\
                \x20 02000040 00000004 .bss gBuf\t(main.o)\n\
                \x20 02000050 00000004 .text other\t(unknown.o)\n\
                \x20 02000060 00000020 .text main\t(main.o)";
    let x = parse_xmap(text, &sm);
    let main = x.get("src/main", true, "main").unwrap();
    assert_eq!(main.section_name, ".text");
    assert_eq!(main.section_type, SectionType::Code);
    assert_eq!(main.size, 0x20);
    assert_eq!(main.addr, 0x02000060);
    let table = x.get("src/main", true, "kTable").unwrap();
    assert_eq!(table.section_type, SectionType::Data);
    assert_eq!(table.size, 4);
    assert_eq!(table.addr, 0x02000010);
    let boot = x.get("asm/boot", false, "boot_entry").unwrap();
    assert_eq!(boot.size, 8);
    assert!(x.get("asm/boot", true, "boot_entry").is_none());
    assert!(x.get("src/main", true, "empty").is_none());
    let buf = x.get("src/main", true, "gBuf").unwrap();
    assert_eq!(buf.section_name, ".bss");
    assert_eq!(buf.section_type, SectionType::NoLoad);
    assert_eq!(buf.size, 4);
    assert!(x.unmapped_sections().is_empty());
    assert!(x.get("unknown", true, "other").is_none());
    assert!(x.get("unknown", false, "other").is_none());
    assert!(x.get("src/main", true, "ma in").is_none());
}

#[test]
fn hex_fields_are_read_in_full() {
    let sm = sample_source_map();
    let x = parse_xmap("FFFFFFFF ABCDEF01 .data big\t(main.o)", &sm);
    let big = x.get("src/main", true, "big").unwrap();
    assert_eq!(big.size, 0xABCDEF01);
    assert_eq!(big.addr, 0xFFFFFFFF);
}

#[test]
fn unmapped_sections_are_filed_and_listed() {
    let sm = sample_source_map();
    let text = "  02000000 00000010 .ctor .ctor\t(boot.o)\n\
                \x20 02000010 00000004 .foo x\t(main.o)\n\
                \x20 02000020 00000004 .bar y\t(unknown.o)\n\
                \x20 02000030 00000000 .baz z\t(main.o)\n\
                \x20 02000040 00000004 .ctor w\t(main.o)";
    let x = parse_xmap(text, &sm);
    let ctor = x.get("asm/boot", false, ".ctor").unwrap();
    assert_eq!(ctor.section_type, SectionType::Unknown);
    assert_eq!(ctor.size, 0x10);
    let names: Vec<&str> = x.unmapped_sections().iter().map(|s| s.as_str()).collect();
    assert_eq!(names, vec![".ctor", ".foo", ".ctor"]);
}

#[test]
fn a_later_line_replaces_an_earlier_whatever_its_section() {
    let sm = sample_source_map();
    let text = "02000000 00000010 .text gVar\t(main.o)\n02000100 00000008 .bss gVar\t(main.o)";
    let x = parse_xmap(text, &sm);
    let v = x.get("src/main", true, "gVar").unwrap();
    assert_eq!(v.section_type, SectionType::NoLoad);
    assert_eq!(v.size, 8);
    assert_eq!(v.addr, 0x02000100);
}
