use micrio::{
    build_feature_table, bytes_eq, config_json_contents, crate_index_rel_path, download_url,
    eval_guard, lower_bytes, pages_needed, parse_entry, parse_requirement, parse_version,
    registry_rel_path, select_release, Cli, CrateVersion, DepKind, DependencyRef, DstRegistry,
    FeatureDef, FeatureEntry, FeaturesList, Package, Release, Target,
};

fn by(s: &str) -> Vec<u8> {
    s.as_bytes().to_vec()
}

fn linux() -> Target {
    Target {
        family: by("unix"),
        os: by("linux"),
        env: by("gnu"),
        arch: by("x86_64"),
        pointer_width: by("64"),
        endian: by("little"),
        features: Vec::new(),
        triple: by("x86_64-unknown-linux-gnu"),
    }
}

fn plain_dep(name: &str, optional: bool) -> DependencyRef {
    DependencyRef {
        ref_name: by(name),
        package_name: by(name),
        requirement: by("^1.0"),
        kind: DepKind::Normal,
        optional,
        default_features: true,
        features: Vec::new(),
        target_guard: None,
    }
}

fn plain_release(name: &str, version: &str) -> Release {
    Release {
        name: by(name),
        version: by(version),
        withdrawn: false,
        dependencies: Vec::new(),
        features: Vec::new(),
    }
}

#[test]
fn selection_prefers_newest_compatible() {
    let mut p = Package { name: by("b"), releases: Vec::new() };
    p.releases.push(plain_release("b", "1.0.0"));
    p.releases.push(plain_release("b", "1.2.0"));
    p.releases.push(plain_release("b", "2.0.0"));
    let req = parse_requirement(&by("^1.0")).unwrap();
    let picked = select_release(&p, &req).unwrap().unwrap();
    assert_eq!(p.releases[picked].version, by("1.2.0"));
}

#[test]
fn selection_reports_unparsable_candidate() {
    let mut p = Package { name: by("b"), releases: Vec::new() };
    p.releases.push(plain_release("b", "totally wrong"));
    let req = parse_requirement(&by("^1.0")).unwrap();
    let bad = select_release(&p, &req).unwrap_err();
    assert_eq!(bad, 0);
}

#[test]
fn selection_skips_prerelease_for_plain_requirement() {
    let mut p = Package { name: by("b"), releases: Vec::new() };
    p.releases.push(plain_release("b", "1.0.0"));
    p.releases.push(plain_release("b", "1.1.0-alpha.1"));
    let req = parse_requirement(&by("^1.0")).unwrap();
    let picked = select_release(&p, &req).unwrap().unwrap();
    assert_eq!(p.releases[picked].version, by("1.0.0"));
}

#[test]
fn semver_parsers_reject_garbage() {
    assert!(parse_version(&by("1.2.3")).is_some());
    assert!(parse_version(&by("1.2")).is_none());
    assert!(parse_requirement(&by(">=1.0, <2.0")).is_some());
    assert!(parse_requirement(&by("@nope")).is_none());
}

#[test]
fn guard_predicates_follow_the_descriptor() {
    let t = linux();
    assert_eq!(eval_guard(&by("cfg(target_os = \"linux\")"), &t), Some(true));
    assert_eq!(eval_guard(&by("cfg(target_os = \"windows\")"), &t), Some(false));
    assert_eq!(eval_guard(&by("cfg(target_family = \"unix\")"), &t), Some(true));
    assert_eq!(eval_guard(&by("cfg(target_pointer_width = \"64\")"), &t), Some(true));
    assert_eq!(eval_guard(&by("cfg(target_feature = \"sse4.2\")"), &t), Some(true));
    assert_eq!(eval_guard(&by("cfg(some_flag)"), &t), Some(false));
    assert_eq!(eval_guard(&by("cfg(mystery_key = \"v\")"), &t), Some(false));
}

#[test]
fn guard_combinators_behave_standardly() {
    let t = linux();
    assert_eq!(eval_guard(&by("cfg(all())"), &t), Some(true));
    assert_eq!(eval_guard(&by("cfg(any())"), &t), Some(false));
    assert_eq!(
        eval_guard(&by("cfg(all(target_os = \"linux\", target_arch = \"x86_64\"))"), &t),
        Some(true)
    );
    assert_eq!(
        eval_guard(&by("cfg(any(target_os = \"windows\", unix_flag))"), &t),
        Some(false)
    );
    assert_eq!(eval_guard(&by("cfg(not(target_os = \"windows\"))"), &t), Some(true));
    assert_eq!(
        eval_guard(&by("cfg( all( target_os = \"linux\" , ) )"), &t),
        Some(true)
    );
}

#[test]
fn guard_literal_triple_compares_to_descriptor() {
    let t = linux();
    assert_eq!(eval_guard(&by("x86_64-unknown-linux-gnu"), &t), Some(true));
    assert_eq!(eval_guard(&by("aarch64-apple-darwin"), &t), Some(false));
}

#[test]
fn guard_parse_errors_are_reported() {
    let t = linux();
    assert_eq!(eval_guard(&by("cfg(target_os = "), &t), None);
    assert_eq!(eval_guard(&by("cfg(all(target_os = \"linux\")"), &t), None);
    assert_eq!(eval_guard(&by("cfg(target_os = \"linux\") junk"), &t), None);
}

fn sample_release() -> Release {
    let mut r = plain_release("a", "1.0.0");
    r.dependencies.push(plain_dep("optdep", true));
    r.dependencies.push(plain_dep("somedep", false));
    r.features.push(FeatureDef { name: by("feat1"), entries: vec![] });
    r
}

#[test]
fn entry_forms_parse_in_order() {
    let r = sample_release();
    let (e, sup) = parse_entry(&by("feat1"), &r.features, &r.dependencies).unwrap();
    assert!(matches!(e, FeatureEntry::Feature(_)) && !sup);
    let (e, sup) = parse_entry(&by("optdep"), &r.features, &r.dependencies).unwrap();
    assert!(matches!(e, FeatureEntry::Dep(_)) && !sup);
    let (e, sup) = parse_entry(&by("dep:optdep"), &r.features, &r.dependencies).unwrap();
    assert!(matches!(e, FeatureEntry::Dep(_)) && sup);
    let (e, sup) = parse_entry(&by("somedep/x"), &r.features, &r.dependencies).unwrap();
    assert!(matches!(e, FeatureEntry::DepStrong(_, _)) && !sup);
    let (e, sup) = parse_entry(&by("optdep?/x"), &r.features, &r.dependencies).unwrap();
    assert!(matches!(e, FeatureEntry::DepWeak(_, _)) && sup == false);
    let (e, sup) = parse_entry(&by("dep:optdep?/x"), &r.features, &r.dependencies).unwrap();
    assert!(matches!(e, FeatureEntry::DepWeak(_, _)) && sup);
    assert!(parse_entry(&by("nosuch"), &r.features, &r.dependencies).is_none());
    assert!(parse_entry(&by("somedep?/x"), &r.features, &r.dependencies).is_none());
    assert!(parse_entry(&by("dep:somedep"), &r.features, &r.dependencies).is_none());
}

#[test]
fn implicit_feature_added_unless_suppressed() {
    let mut r = plain_release("a", "1.0.0");
    r.dependencies.push(plain_dep("shown", true));
    r.dependencies.push(plain_dep("hidden", true));
    r.features.push(FeatureDef { name: by("f"), entries: vec![by("dep:hidden")] });
    let t = build_feature_table(&r).unwrap();
    assert!(t.rows.iter().any(|row| row.name == by("shown")));
    assert!(!t.rows.iter().any(|row| row.name == by("hidden")));
    let shown = t.rows.iter().find(|row| row.name == by("shown")).unwrap();
    assert_eq!(shown.entries.len(), 1);
    assert!(matches!(shown.entries[0], FeatureEntry::Dep(_)));
}

#[test]
fn implicit_feature_not_added_over_existing_key() {
    let mut r = plain_release("a", "1.0.0");
    r.dependencies.push(plain_dep("serde", true));
    r.features.push(FeatureDef { name: by("serde"), entries: vec![by("dep:serde")] });
    let t = build_feature_table(&r).unwrap();
    assert_eq!(t.rows.iter().filter(|row| row.name == by("serde")).count(), 1);
}

#[test]
fn malformed_table_reports_the_entry() {
    let mut r = plain_release("a", "1.0.0");
    r.features.push(FeatureDef { name: by("f"), entries: vec![by("ghost")] });
    let (fname, raw) = build_feature_table(&r).unwrap_err();
    assert_eq!(fname, by("f"));
    assert_eq!(raw, by("ghost"));
}

#[test]
fn index_paths_follow_the_layout() {
    assert_eq!(crate_index_rel_path(&by("a")), by("1/a"));
    assert_eq!(crate_index_rel_path(&by("ab")), by("2/ab"));
    assert_eq!(crate_index_rel_path(&by("abc")), by("3/a/abc"));
    assert_eq!(crate_index_rel_path(&by("serde")), by("se/rd/serde"));
    assert_eq!(crate_index_rel_path(&by("Serde")), by("se/rd/serde"));
    assert_eq!(crate_index_rel_path(&by("toml")), by("to/ml/toml"));
}

#[test]
fn lowercasing_is_ascii_only() {
    assert_eq!(lower_bytes(&by("MiXeD-09_z")), by("mixed-09_z"));
}

#[test]
fn config_json_points_at_the_registry() {
    assert_eq!(
        config_json_contents(&by("/mirror")),
        by("{\n    \"dl\": \"file:///mirror/registry\"\n}")
    );
}

#[test]
fn download_url_names_the_archive() {
    assert_eq!(
        download_url(&by("tokio"), &by("1.2.3")),
        by("https://static.crates.io/crates/tokio/tokio-1.2.3.crate")
    );
}

#[test]
fn registry_path_holds_the_blob() {
    assert_eq!(registry_rel_path(&by("tokio"), &by("1.2.3")), by("tokio/1.2.3/download"));
}

#[test]
fn page_arithmetic_matches_the_query() {
    assert_eq!(pages_needed(0, 50), (0, false));
    assert_eq!(pages_needed(50, 50), (1, false));
    assert_eq!(pages_needed(51, 50), (2, true));
    assert_eq!(pages_needed(100, 50), (2, false));
    assert_eq!(pages_needed(1, 50), (1, true));
}

#[test]
fn destination_path_is_normalized() {
    let cwd = by("/home/user");
    assert_eq!(DstRegistry::new(by("/abs/dir"), &cwd).path(), &by("/abs/dir"));
    assert_eq!(DstRegistry::new(by("mirror"), &cwd).path(), &by("/home/user/mirror"));
    assert_eq!(DstRegistry::new(by("./mirror"), &cwd).path(), &by("/home/user/mirror"));
    assert_eq!(DstRegistry::new(by(".\\mirror"), &cwd).path(), &by("/home/user/mirror"));
    assert_eq!(DstRegistry::new(by("deep\\dir"), &cwd).path(), &by("/home/user/deep/dir"));
    assert_eq!(DstRegistry::new(by("C:\\mirror"), &cwd).path(), &by("C:/mirror"));
    assert_eq!(DstRegistry::new(by("d:/mirror"), &cwd).path(), &by("d:/mirror"));
}

#[test]
fn cli_requires_a_root_selection() {
    let none = Cli { mirror_dir_path: String::new(), from_file: None, most_downloaded: None };
    assert!(!none.selects_roots());
    let some = Cli {
        mirror_dir_path: String::new(),
        from_file: None,
        most_downloaded: Some(10),
    };
    assert!(some.selects_roots());
}

#[test]
fn features_list_keeps_names_unique() {
    let mut l = FeaturesList::new();
    assert!(l.add_feature(by("x")));
    assert!(l.add_feature(by("y")));
    assert!(!l.add_feature(by("x")));
    assert_eq!(l.len(), 2);
    assert!(l.contains_feature(&by("y")));
    assert!(!l.contains_feature(&by("z")));
}

#[test]
fn crate_version_keeps_its_parts() {
    let cv = CrateVersion::new(by("tokio"), by("1.0.0"));
    assert_eq!(cv.name, by("tokio"));
    assert_eq!(cv.version, by("1.0.0"));
    assert!(bytes_eq(&cv.name, &by("tokio")));
    assert!(!bytes_eq(&cv.name, &by("Tokio")));
}
