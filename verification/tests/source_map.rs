use build_analyzer::errors::Error;
use build_analyzer::source_mapper::{match_lsf_line, parse_lsf, SourceMap};
use build_analyzer::text::str_chars;
use regex::Regex;

#[test]
fn object_lines_match_like_the_link_spec_grammar() {
    let re = Regex::new(r"^\s*Object\s+(\S+)\.o").unwrap();
    let lines = [
        "  Object src/main.o",
        "Object src/main.o",
        "\tObject\tsrc/main.o trailing",
        "  Object src/a.o.b.o",
        "  Object src/a.o.bc",
        "  Object .o",
        "  Object a.o",
        "  Object x.obj",
        "  Objects src/main.o",
        "  Object",
        "  Object ",
        "  ObjectX src/main.o",
        "  # Object src/main.o",
        "  object src/main.o",
        "  Object src/ma in.o",
        "  Object src/main.o/x.o",
        "",
    ];
    for line in lines {
        let chars = str_chars(line);
        let mine = match_lsf_line(&chars)
            .map(|sp| chars[sp.name_start..sp.name_end].iter().collect::<String>());
        let theirs = re.captures(line).map(|c| c[1].to_string());
        assert_eq!(mine, theirs, "line {line:?}");
    }
}

#[test]
fn parse_lsf_lists_objects_in_order() {
    let text = "Static main\n{\n  Address 0x02000000\n  Object src/main.o\n  Object asm/boot.o\r\n  Library libc.a\n  Object lib/x.o.y.o\n}\n";
    assert_eq!(parse_lsf(text), vec!["src/main", "asm/boot", "lib/x.o.y"]);
    assert_eq!(parse_lsf(""), Vec::<String>::new());
}

#[test]
fn add_object_records_stem_and_relative_path() {
    let mut sm = SourceMap::new();
    assert_eq!(sm.add_object("/p/src/main", "/p/", true, false), Ok(()));
    assert_eq!(sm.len(), 1);
    let e = sm.get("main").unwrap();
    assert_eq!(e.stem, "main");
    assert_eq!(e.subpath, "src/main");
    assert!(e.is_cfile);
    assert!(sm.get("src/main").is_none());
}

#[test]
fn add_object_replaces_every_occurrence_of_the_root() {
    let mut sm = SourceMap::new();
    assert_eq!(sm.add_object("/p/a//p/b", "/p/", false, true), Ok(()));
    assert_eq!(sm.get("b").unwrap().subpath, "a/b");
}

#[test]
fn add_object_needs_a_slash() {
    let mut sm = SourceMap::new();
    assert_eq!(sm.add_object("main", "/p/", true, false), Err(Error::NoSlashInPath));
    assert_eq!(sm.len(), 0);
}

#[test]
fn add_object_refuses_both_languages() {
    let mut sm = SourceMap::new();
    assert_eq!(
        sm.add_object("/p/src/main", "/p/", true, true),
        Err(Error::BothCAndAsm("main".to_string()))
    );
    assert_eq!(sm.len(), 0);
}

#[test]
fn add_object_refuses_a_conflicting_stem() {
    let mut sm = SourceMap::new();
    sm.add_object("/p/src/util", "/p/", true, false).unwrap();
    assert_eq!(
        sm.add_object("/p/asm/util", "/p/", false, true),
        Err(Error::ConflictingSourceTypes("util".to_string()))
    );
    assert_eq!(sm.get("util").unwrap().subpath, "src/util");
}

#[test]
fn add_object_with_the_same_language_replaces_in_place() {
    let mut sm = SourceMap::new();
    sm.add_object("/p/src/a", "/p/", true, false).unwrap();
    sm.add_object("/p/src/b", "/p/", true, false).unwrap();
    sm.add_object("/p/lib/a", "/p/", true, false).unwrap();
    assert_eq!(sm.len(), 2);
    assert_eq!(sm.entry(0).subpath, "lib/a");
    assert_eq!(sm.entry(1).subpath, "src/b");
    // A source with neither extension is recorded as assembly.
    sm.add_object("/p/gen/c", "/p/", false, false).unwrap();
    assert!(!sm.get("c").unwrap().is_cfile);
}
