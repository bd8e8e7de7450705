use cargo_index::cargo::Manifest;
use cargo_index::lockfile::Lockfile;
use cargo_index::lockfile::LockfilePackage;

fn entry(name: &str, version: &str, source: Option<&str>) -> LockfilePackage {
    LockfilePackage {
        name: name.to_string(),
        version: version.to_string(),
        source: source.map(|s| s.to_string()),
        checksum: None,
    }
}

fn manifest(name: &str, version: &str, source: Option<&str>) -> Manifest {
    Manifest {
        id: 0,
        name: name.to_string(),
        version: version.to_string(),
        source: source.map(|s| s.to_string()),
        dependencies: Vec::new(),
        targets: Vec::new(),
        third_party: Vec::new(),
    }
}

#[test]
fn load_sorts_entries() {
    let lf = Lockfile::load(
        3,
        vec![
            entry("zeta", "1.0.0", None),
            entry("alpha", "2.0.0", Some("registry://x")),
            entry("alpha", "1.0.0", None),
        ],
    );
    assert!(lf.version.is_expected());
    assert_eq!(lf.packages.len(), 3);
    assert_eq!(lf.packages[0].name, "alpha");
    assert_eq!(lf.packages[0].version, "1.0.0");
    assert_eq!(lf.packages[1].name, "alpha");
    assert_eq!(lf.packages[1].version, "2.0.0");
    assert_eq!(lf.packages[2].name, "zeta");
}

#[test]
fn absent_source_sorts_before_present() {
    let lf = Lockfile::load(
        3,
        vec![
            entry("a", "1.0.0", Some("registry://x")),
            entry("a", "1.0.0", None),
        ],
    );
    assert!(lf.packages[0].source.is_none());
    assert!(lf.packages[1].source.is_some());
}

#[test]
fn other_versions_still_load() {
    let lf = Lockfile::load(4, vec![entry("a", "1.0.0", None)]);
    assert!(!lf.version.is_expected());
    assert_eq!(lf.packages.len(), 1);
}

#[test]
fn find_exact_match() {
    let lf = Lockfile::load(
        3,
        vec![
            entry("c", "3.0.0", None),
            entry("a", "1.0.0", None),
            entry("b", "2.0.0", Some("registry://x")),
        ],
    );
    let hit = lf.find(&manifest("b", "2.0.0", Some("registry://x"))).unwrap();
    assert_eq!(hit.name, "b");
    assert_eq!(hit.version, "2.0.0");
    assert_eq!(hit.source.as_deref(), Some("registry://x"));
}

#[test]
fn find_absent_is_none() {
    let lf = Lockfile::load(3, vec![entry("a", "1.0.0", None), entry("b", "2.0.0", None)]);
    assert!(lf.find(&manifest("a", "2.0.0", None)).is_none());
    assert!(lf.find(&manifest("b", "2.0.0", Some("registry://x"))).is_none());
    assert!(lf.find(&manifest("c", "1.0.0", None)).is_none());
}

fn scan_fixture() -> Vec<LockfilePackage> {
    vec![
        entry("m", "1.2.3", None),
        entry("a", "0.1.0", Some("registry://x")),
        entry("z", "9.9.9", None),
        entry("a", "0.2.0", Some("registry://x")),
        entry("k", "1.0.0", Some("git://y")),
    ]
}

#[test]
fn linear_scan_and_search_agree() {
    let raw = scan_fixture();
    let lf = Lockfile::load(3, scan_fixture());
    // every entry of the original list is found by binary search
    for e in &raw {
        let m = manifest(&e.name, &e.version, e.source.as_deref());
        let hit = lf.find(&m).expect("entry must be found");
        assert_eq!(hit.name, e.name);
        assert_eq!(hit.version, e.version);
        assert_eq!(hit.source, e.source);
    }
    // and the sorted list holds exactly the same keys
    for e in &lf.packages {
        assert!(raw
            .iter()
            .any(|r| r.name == e.name && r.version == e.version && r.source == e.source));
    }
    assert_eq!(lf.packages.len(), raw.len());
}
