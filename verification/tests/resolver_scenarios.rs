use micrio::{
    CrateVersion, DepKind, DependencyRef, FeatureDef, Package, Release, ResolveError, SrcRegistry,
    Target, VersionStore, Warning,
};

fn b(s: &str) -> Vec<u8> {
    s.as_bytes().to_vec()
}

fn dep(name: &str, req: &str, optional: bool) -> DependencyRef {
    DependencyRef {
        ref_name: b(name),
        package_name: b(name),
        requirement: b(req),
        kind: DepKind::Normal,
        optional,
        default_features: true,
        features: Vec::new(),
        target_guard: None,
    }
}

fn release(name: &str, version: &str) -> Release {
    Release {
        name: b(name),
        version: b(version),
        withdrawn: false,
        dependencies: Vec::new(),
        features: Vec::new(),
    }
}

fn feature(name: &str, entries: &[&str]) -> FeatureDef {
    FeatureDef { name: b(name), entries: entries.iter().map(|e| b(e)).collect() }
}

fn store_of(packages: Vec<Package>) -> VersionStore {
    let mut s = VersionStore::new();
    for p in packages {
        assert!(s.push_package(p));
    }
    s
}

fn pkg(name: &str, releases: Vec<Release>) -> Package {
    Package { name: b(name), releases }
}

fn linux_target() -> Target {
    Target {
        family: b("unix"),
        os: b("linux"),
        env: b("gnu"),
        arch: b("x86_64"),
        pointer_width: b("64"),
        endian: b("little"),
        features: Vec::new(),
        triple: b("x86_64-unknown-linux-gnu"),
    }
}

fn windows_target() -> Target {
    Target {
        family: b("windows"),
        os: b("windows"),
        env: b("msvc"),
        arch: b("x86_64"),
        pointer_width: b("64"),
        endian: b("little"),
        features: Vec::new(),
        triple: b("x86_64-pc-windows-msvc"),
    }
}

fn roots_of(keys: &[(&str, &str)]) -> Vec<CrateVersion> {
    keys.iter().map(|(n, v)| CrateVersion::new(b(n), b(v))).collect()
}

fn entry<'c>(
    res: &'c micrio::Resolution,
    name: &str,
    version: &str,
) -> Option<&'c micrio::ClosureEntry> {
    res.closure
        .iter()
        .find(|e| e.key.name == b(name) && e.key.version == b(version))
}

#[test]
fn required_only_chain() {
    let mut a = release("a", "1.0.0");
    a.dependencies.push(dep("b", "^1.0", false));
    let mut b10 = release("b", "1.0.0");
    b10.dependencies.push(dep("c", "^1.0", false));
    let mut b11 = release("b", "1.1.0");
    b11.dependencies.push(dep("c", "^1.0", false));
    let c10 = release("c", "1.0.0");
    let store = store_of(vec![
        pkg("a", vec![a]),
        pkg("b", vec![b10, b11]),
        pkg("c", vec![c10]),
    ]);
    let target = linux_target();
    let reg = SrcRegistry::new(&store, &target);
    let res = reg.get_dependencies(&roots_of(&[("a", "1.0.0")])).unwrap();
    assert_eq!(res.closure.len(), 3);
    assert!(entry(&res, "a", "1.0.0").unwrap().download);
    assert!(entry(&res, "b", "1.1.0").unwrap().download);
    assert!(entry(&res, "c", "1.0.0").unwrap().download);
    assert!(entry(&res, "b", "1.0.0").is_none());
}

#[test]
fn optional_pulled_by_root_maximize() {
    let mut a = release("a", "1.0.0");
    a.dependencies.push(dep("b", "^1.0", true));
    a.features.push(feature("default", &[]));
    a.features.push(feature("x", &["dep:b"]));
    let b10 = release("b", "1.0.0");
    let store = store_of(vec![pkg("a", vec![a]), pkg("b", vec![b10])]);
    let target = linux_target();
    let reg = SrcRegistry::new(&store, &target);
    let res = reg.get_dependencies(&roots_of(&[("a", "1.0.0")])).unwrap();
    assert_eq!(res.closure.len(), 2);
    assert!(entry(&res, "a", "1.0.0").unwrap().download);
    assert!(entry(&res, "b", "1.0.0").unwrap().download);
}

#[test]
fn weak_feature_activation() {
    let mut a = release("a", "1.0.0");
    a.dependencies.push(dep("b", "^1.0", true));
    a.dependencies.push(dep("c", "^1.0", true));
    a.features.push(feature("f", &["c", "b?/extra"]));
    let mut b10 = release("b", "1.0.0");
    b10.features.push(feature("extra", &[]));
    let c10 = release("c", "1.0.0");
    let store = store_of(vec![
        pkg("a", vec![a]),
        pkg("b", vec![b10]),
        pkg("c", vec![c10]),
    ]);
    let target = linux_target();
    let reg = SrcRegistry::new(&store, &target);
    let res = reg.get_dependencies(&roots_of(&[("a", "1.0.0")])).unwrap();
    let bent = entry(&res, "b", "1.0.0").unwrap();
    assert!(bent.requested.list.iter().any(|f| f == &b("extra")));
    assert!(bent.enabled.list.iter().any(|f| f == &b("extra")));
    assert!(entry(&res, "c", "1.0.0").is_some());
}

#[test]
fn target_guarded_dep_index_only() {
    let mut a = release("a", "1.0.0");
    let mut d = dep("d", "^1.0", false);
    d.target_guard = Some(b("cfg(target_os = \"linux\")"));
    a.dependencies.push(d);
    let d10 = release("d", "1.0.0");
    let store = store_of(vec![pkg("a", vec![a]), pkg("d", vec![d10])]);
    let target = windows_target();
    let reg = SrcRegistry::new(&store, &target);
    let res = reg.get_dependencies(&roots_of(&[("a", "1.0.0")])).unwrap();
    let dent = entry(&res, "d", "1.0.0").unwrap();
    assert!(!dent.download);
    assert!(entry(&res, "a", "1.0.0").unwrap().download);
}

#[test]
fn withdrawn_newest_skipped() {
    let mut a = release("a", "1.0.0");
    a.dependencies.push(dep("b", "^1.0", false));
    let b10 = release("b", "1.0.0");
    let mut b11 = release("b", "1.1.0");
    b11.withdrawn = true;
    let store = store_of(vec![pkg("a", vec![a]), pkg("b", vec![b10, b11])]);
    let target = linux_target();
    let reg = SrcRegistry::new(&store, &target);
    let res = reg.get_dependencies(&roots_of(&[("a", "1.0.0")])).unwrap();
    assert!(entry(&res, "b", "1.0.0").is_some());
    assert!(entry(&res, "b", "1.1.0").is_none());
}

#[test]
fn re_entry_with_more_features() {
    let mut a = release("a", "1.0.0");
    let mut da = dep("b", "^1.0", false);
    da.features.push(b("x"));
    a.dependencies.push(da);
    let mut c = release("c", "1.0.0");
    let mut dc = dep("b", "^1.0", false);
    dc.features.push(b("y"));
    c.dependencies.push(dc);
    let mut b10 = release("b", "1.0.0");
    b10.dependencies.push(dep("dx", "^1.0", true));
    b10.dependencies.push(dep("dy", "^1.0", true));
    b10.features.push(feature("x", &["dep:dx"]));
    b10.features.push(feature("y", &["dep:dy"]));
    let store = store_of(vec![
        pkg("a", vec![a]),
        pkg("c", vec![c]),
        pkg("b", vec![b10]),
        pkg("dx", vec![release("dx", "1.0.0")]),
        pkg("dy", vec![release("dy", "1.0.0")]),
    ]);
    let target = linux_target();
    let reg = SrcRegistry::new(&store, &target);
    let res = reg
        .get_dependencies(&roots_of(&[("a", "1.0.0"), ("c", "1.0.0")]))
        .unwrap();
    assert_eq!(
        res.closure
            .iter()
            .filter(|e| e.key.name == b("b"))
            .count(),
        1
    );
    assert!(entry(&res, "dx", "1.0.0").is_some());
    assert!(entry(&res, "dy", "1.0.0").is_some());
}

fn closure_triples(res: &micrio::Resolution) -> Vec<(Vec<u8>, Vec<u8>, bool)> {
    let mut v: Vec<(Vec<u8>, Vec<u8>, bool)> = res
        .closure
        .iter()
        .map(|e| (e.key.name.clone(), e.key.version.clone(), e.download))
        .collect();
    v.sort();
    v
}

#[test]
fn resolving_twice_gives_identical_closures() {
    let mut a = release("a", "1.0.0");
    a.dependencies.push(dep("b", "^1.0", true));
    a.features.push(feature("f", &["b?/extra"]));
    let mut b10 = release("b", "1.0.0");
    b10.features.push(feature("extra", &[]));
    let store = store_of(vec![pkg("a", vec![a]), pkg("b", vec![b10])]);
    let target = linux_target();
    let reg = SrcRegistry::new(&store, &target);
    let first = reg.get_dependencies(&roots_of(&[("a", "1.0.0")])).unwrap();
    let second = reg.get_dependencies(&roots_of(&[("a", "1.0.0")])).unwrap();
    assert_eq!(closure_triples(&first), closure_triples(&second));
}

#[test]
fn enlarging_roots_keeps_closure_entries() {
    let mut a = release("a", "1.0.0");
    a.dependencies.push(dep("b", "^1.0", false));
    let b10 = release("b", "1.0.0");
    let mut e = release("e", "1.0.0");
    let mut de = dep("b", "^1.0", false);
    de.features.push(b("x"));
    e.dependencies.push(de);
    let store = store_of(vec![
        pkg("a", vec![a]),
        pkg("b", vec![b10]),
        pkg("e", vec![e]),
    ]);
    let target = linux_target();
    let reg = SrcRegistry::new(&store, &target);
    let small = reg.get_dependencies(&roots_of(&[("a", "1.0.0")])).unwrap();
    let large = reg
        .get_dependencies(&roots_of(&[("a", "1.0.0"), ("e", "1.0.0")]))
        .unwrap();
    for (name, version, download) in closure_triples(&small) {
        let found = large
            .closure
            .iter()
            .find(|x| x.key.name == name && x.key.version == version)
            .expect("entry kept");
        if download {
            assert!(found.download);
        }
    }
}

#[test]
fn root_not_found_is_fatal() {
    let store = store_of(vec![]);
    let target = linux_target();
    let reg = SrcRegistry::new(&store, &target);
    let err = reg.get_dependencies(&roots_of(&[("ghost", "1.0.0")])).unwrap_err();
    assert!(matches!(err, ResolveError::RootNotFound { .. }));
}

#[test]
fn root_withdrawn_is_fatal() {
    let mut a = release("a", "1.0.0");
    a.withdrawn = true;
    let store = store_of(vec![pkg("a", vec![a])]);
    let target = linux_target();
    let reg = SrcRegistry::new(&store, &target);
    let err = reg.get_dependencies(&roots_of(&[("a", "1.0.0")])).unwrap_err();
    assert!(matches!(err, ResolveError::RootWithdrawn { .. }));
}

#[test]
fn missing_dependency_package_is_fatal() {
    let mut a = release("a", "1.0.0");
    a.dependencies.push(dep("ghost", "^1.0", false));
    let store = store_of(vec![pkg("a", vec![a])]);
    let target = linux_target();
    let reg = SrcRegistry::new(&store, &target);
    let err = reg.get_dependencies(&roots_of(&[("a", "1.0.0")])).unwrap_err();
    assert!(matches!(err, ResolveError::PackageNotFound { .. }));
}

#[test]
fn unparsable_requirement_is_fatal() {
    let mut a = release("a", "1.0.0");
    a.dependencies.push(dep("b", "definitely not semver", false));
    let store = store_of(vec![pkg("a", vec![a]), pkg("b", vec![release("b", "1.0.0")])]);
    let target = linux_target();
    let reg = SrcRegistry::new(&store, &target);
    let err = reg.get_dependencies(&roots_of(&[("a", "1.0.0")])).unwrap_err();
    assert!(matches!(err, ResolveError::BadRequirement { .. }));
}

#[test]
fn unparsable_candidate_version_is_fatal() {
    let mut a = release("a", "1.0.0");
    a.dependencies.push(dep("b", "^1.0", false));
    let store = store_of(vec![
        pkg("a", vec![a]),
        pkg("b", vec![release("b", "one.zero")]),
    ]);
    let target = linux_target();
    let reg = SrcRegistry::new(&store, &target);
    let err = reg.get_dependencies(&roots_of(&[("a", "1.0.0")])).unwrap_err();
    assert!(matches!(err, ResolveError::BadVersion { .. }));
}

#[test]
fn malformed_feature_entry_is_fatal() {
    let mut a = release("a", "1.0.0");
    a.features.push(feature("f", &["nosuchthing"]));
    let store = store_of(vec![pkg("a", vec![a])]);
    let target = linux_target();
    let reg = SrcRegistry::new(&store, &target);
    let err = reg.get_dependencies(&roots_of(&[("a", "1.0.0")])).unwrap_err();
    assert!(matches!(err, ResolveError::MalformedFeature { .. }));
}

#[test]
fn unparsable_guard_is_fatal() {
    let mut a = release("a", "1.0.0");
    let mut d = dep("b", "^1.0", false);
    d.target_guard = Some(b("cfg(target_os = "));
    a.dependencies.push(d);
    let store = store_of(vec![pkg("a", vec![a]), pkg("b", vec![release("b", "1.0.0")])]);
    let target = linux_target();
    let reg = SrcRegistry::new(&store, &target);
    let err = reg.get_dependencies(&roots_of(&[("a", "1.0.0")])).unwrap_err();
    assert!(matches!(err, ResolveError::BadGuard { .. }));
}

#[test]
fn no_compatible_release_is_a_warning() {
    let mut a = release("a", "1.0.0");
    a.dependencies.push(dep("b", "^9.0", false));
    let store = store_of(vec![pkg("a", vec![a]), pkg("b", vec![release("b", "1.0.0")])]);
    let target = linux_target();
    let reg = SrcRegistry::new(&store, &target);
    let res = reg.get_dependencies(&roots_of(&[("a", "1.0.0")])).unwrap();
    assert!(entry(&res, "b", "1.0.0").is_none());
    assert_eq!(res.warnings.len(), 1);
    assert!(matches!(
        res.warnings[0],
        Warning::NoCompatibleRelease { .. }
    ));
}

#[test]
fn default_features_suppressed_for_dependency() {
    let mut a = release("a", "1.0.0");
    let mut d = dep("b", "^1.0", false);
    d.default_features = false;
    a.dependencies.push(d);
    let mut b10 = release("b", "1.0.0");
    b10.dependencies.push(dep("heavy", "^1.0", true));
    b10.features.push(feature("default", &["dep:heavy"]));
    let store = store_of(vec![
        pkg("a", vec![a]),
        pkg("b", vec![b10]),
        pkg("heavy", vec![release("heavy", "1.0.0")]),
    ]);
    let target = linux_target();
    let reg = SrcRegistry::new(&store, &target);
    let res = reg.get_dependencies(&roots_of(&[("a", "1.0.0")])).unwrap();
    assert!(entry(&res, "b", "1.0.0").is_some());
    assert!(entry(&res, "heavy", "1.0.0").is_none());
}

#[test]
fn build_dependencies_followed_dev_ignored() {
    let mut a = release("a", "1.0.0");
    let mut db = dep("b", "^1.0", false);
    db.kind = DepKind::Build;
    let mut dd = dep("c", "^1.0", false);
    dd.kind = DepKind::Dev;
    a.dependencies.push(db);
    a.dependencies.push(dd);
    let store = store_of(vec![
        pkg("a", vec![a]),
        pkg("b", vec![release("b", "1.0.0")]),
        pkg("c", vec![release("c", "1.0.0")]),
    ]);
    let target = linux_target();
    let reg = SrcRegistry::new(&store, &target);
    let res = reg.get_dependencies(&roots_of(&[("a", "1.0.0")])).unwrap();
    assert!(entry(&res, "b", "1.0.0").is_some());
    assert!(entry(&res, "c", "1.0.0").is_none());
}

#[test]
fn weak_entry_alone_does_not_activate_dependency() {
    // m is not a root, so its optional dependency w is not force-activated;
    // the only entry naming w is weak, so w stays out of the closure.
    let mut a = release("a", "1.0.0");
    let mut da = dep("m", "^1.0", false);
    da.features.push(b("f"));
    a.dependencies.push(da);
    let mut m = release("m", "1.0.0");
    m.dependencies.push(dep("w", "^1.0", true));
    m.features.push(feature("f", &["w?/x"]));
    let mut w = release("w", "1.0.0");
    w.features.push(feature("x", &[]));
    let store = store_of(vec![pkg("a", vec![a]), pkg("m", vec![m]), pkg("w", vec![w])]);
    let target = linux_target();
    let reg = SrcRegistry::new(&store, &target);
    let res = reg.get_dependencies(&roots_of(&[("a", "1.0.0")])).unwrap();
    assert!(entry(&res, "m", "1.0.0").is_some());
    assert!(entry(&res, "w", "1.0.0").is_none());
}

#[test]
fn weak_entry_with_activator_enables_the_feature() {
    // As above, but a second enabled feature activates w, so the weak
    // request for x now applies.
    let mut a = release("a", "1.0.0");
    let mut da = dep("m", "^1.0", false);
    da.features.push(b("f"));
    da.features.push(b("g"));
    a.dependencies.push(da);
    let mut m = release("m", "1.0.0");
    m.dependencies.push(dep("w", "^1.0", true));
    m.features.push(feature("f", &["w?/x"]));
    m.features.push(feature("g", &["dep:w"]));
    let mut w = release("w", "1.0.0");
    w.features.push(feature("x", &[]));
    let store = store_of(vec![pkg("a", vec![a]), pkg("m", vec![m]), pkg("w", vec![w])]);
    let target = linux_target();
    let reg = SrcRegistry::new(&store, &target);
    let res = reg.get_dependencies(&roots_of(&[("a", "1.0.0")])).unwrap();
    let went = entry(&res, "w", "1.0.0").unwrap();
    assert!(went.enabled.list.iter().any(|f| f == &b("x")));
}

#[test]
fn implicit_feature_activates_optional_dependency() {
    // m's optional dependency opt is never written in m's feature map, so it
    // receives the implicit feature; a parent asking for feature "opt"
    // activates the dependency.
    let mut a = release("a", "1.0.0");
    let mut da = dep("m", "^1.0", false);
    da.features.push(b("opt"));
    a.dependencies.push(da);
    let mut m = release("m", "1.0.0");
    m.dependencies.push(dep("opt", "^1.0", true));
    let store = store_of(vec![
        pkg("a", vec![a]),
        pkg("m", vec![m]),
        pkg("opt", vec![release("opt", "1.0.0")]),
    ]);
    let target = linux_target();
    let reg = SrcRegistry::new(&store, &target);
    let res = reg.get_dependencies(&roots_of(&[("a", "1.0.0")])).unwrap();
    assert!(entry(&res, "opt", "1.0.0").is_some());
}

#[test]
fn suppressed_alias_gets_no_implicit_feature() {
    // m names its optional dependency hid only under a dep: prefix, so no
    // implicit "hid" feature exists; a parent asking for "hid" hits a
    // missing feature, which is skipped with a warning, and hid stays out.
    let mut a = release("a", "1.0.0");
    let mut da = dep("m", "^1.0", false);
    da.features.push(b("hid"));
    a.dependencies.push(da);
    let mut m = release("m", "1.0.0");
    m.dependencies.push(dep("hid", "^1.0", true));
    m.features.push(feature("other", &["dep:hid"]));
    let store = store_of(vec![
        pkg("a", vec![a]),
        pkg("m", vec![m]),
        pkg("hid", vec![release("hid", "1.0.0")]),
    ]);
    let target = linux_target();
    let reg = SrcRegistry::new(&store, &target);
    let res = reg.get_dependencies(&roots_of(&[("a", "1.0.0")])).unwrap();
    assert!(entry(&res, "hid", "1.0.0").is_none());
}

#[test]
fn dependency_cycles_terminate() {
    // a and b require each other; the walk re-enters only on stronger
    // requests, so it settles with both in the closure.
    let mut a = release("a", "1.0.0");
    a.dependencies.push(dep("b", "^1.0", false));
    let mut b10 = release("b", "1.0.0");
    b10.dependencies.push(dep("a", "^1.0", false));
    let store = store_of(vec![pkg("a", vec![a]), pkg("b", vec![b10])]);
    let target = linux_target();
    let reg = SrcRegistry::new(&store, &target);
    let res = reg.get_dependencies(&roots_of(&[("a", "1.0.0")])).unwrap();
    assert_eq!(res.closure.len(), 2);
    assert!(entry(&res, "b", "1.0.0").unwrap().download);
}
