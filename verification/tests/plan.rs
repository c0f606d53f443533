use build_analyzer::plan::{Args, BuildAnalyzer};

fn args(arm9: Option<&str>, arm7: Option<&str>, names: &[&str]) -> Args {
    Args {
        rootdir: "/home/pret/pokeheartgold".to_string(),
        arm9subdir: arm9.map(|s| s.to_string()),
        arm7subdir: arm7.map(|s| s.to_string()),
        buildnames: names.iter().map(|s| s.to_string()).collect(),
    }
}

#[test]
fn plans_cover_each_build_then_the_arm7() {
    let plans = args(Some(""), Some("sub"), &["heartgold.us", "soulsilver.us"]).plans();
    assert_eq!(plans.len(), 3);
    assert_eq!(plans[0].basedir, "/home/pret/pokeheartgold/");
    assert_eq!(plans[0].buildname.as_deref(), Some("heartgold.us"));
    assert_eq!(plans[0].elf_stem, "main");
    assert_eq!(plans[1].buildname.as_deref(), Some("soulsilver.us"));
    assert_eq!(plans[2].basedir, "/home/pret/pokeheartgold/sub");
    assert_eq!(plans[2].buildname, None);
    assert_eq!(plans[2].elf_stem, "ichneumon_sub");
    assert_eq!(plans[0].label(), "heartgold.us");
    assert_eq!(plans[2].label(), "ichneumon_sub");
}

#[test]
fn plans_without_arm9_ignore_build_names() {
    let plans = args(None, Some("sub"), &["heartgold.us"]).plans();
    assert_eq!(plans.len(), 1);
    assert_eq!(plans[0].elf_stem, "ichneumon_sub");
    assert!(args(None, None, &["x"]).plans().is_empty());
    assert!(args(Some("arm9"), None, &[]).plans().is_empty());
}

#[test]
fn build_analyzer_names_its_files() {
    let named = BuildAnalyzer { basedir: "/p".to_string(), name: Some("heartgold.us".to_string()) };
    assert_eq!(named.elf_name(), "/p/build/heartgold.us/main.elf");
    assert_eq!(named.xmap_name(), "/p/build/heartgold.us/main.elf.xMAP");
    let sub = BuildAnalyzer { basedir: "/p/sub".to_string(), name: None };
    assert_eq!(sub.elf_name(), "/p/sub/build/ichneumon_sub.elf");
    assert_eq!(sub.xmap_name(), "/p/sub/build/ichneumon_sub.elf.xMAP");
}
