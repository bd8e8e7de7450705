use cargo_index::cargo::DepKind;
use cargo_index::cargo::Manifest;
use cargo_index::cargo::ManifestDep;
use cargo_index::cargo::ManifestTarget;
use cargo_index::cargo::Metadata;
use cargo_index::cargo::Node;
use cargo_index::cargo::NodeDep;
use cargo_index::cargo::NodeDepKind;
use cargo_index::cargo::Resolve;
use cargo_index::cargo::TargetKind;
use cargo_index::cargo::TargetReq;
use cargo_index::index::check_metadata;
use cargo_index::index::Index;

fn dep(name: &str, rename: Option<&str>, kind: DepKind, target: Option<&str>) -> ManifestDep {
    ManifestDep {
        name: name.to_string(),
        rename: rename.map(|s| s.to_string()),
        kind,
        target: target.map(|s| s.to_string()),
    }
}

fn target(kind: TargetKind, name: &str) -> ManifestTarget {
    ManifestTarget { kind, name: name.to_string() }
}

fn pkg_stub(id: u64, name: &str, version: &str) -> Manifest {
    Manifest {
        id,
        name: name.to_string(),
        version: version.to_string(),
        source: None,
        dependencies: Vec::new(),
        targets: Vec::new(),
        third_party: Vec::new(),
    }
}

fn edge(pkg: u64, name: Option<&str>, kinds: Vec<DepKind>) -> NodeDep {
    NodeDep {
        pkg,
        name: name.map(|s| s.to_string()),
        dep_kinds: kinds
            .into_iter()
            .map(|kind| NodeDepKind { kind, extern_name: None, target: None })
            .collect(),
    }
}

fn root_manifest() -> Manifest {
    let mut m = pkg_stub(1, "root", "0.1.0");
    m.dependencies = vec![
        dep("alpha", None, DepKind::Normal, None),
        dep("beta", Some("beta-rs"), DepKind::Normal, Some("cfg(windows)")),
        dep("alpha", None, DepKind::Dev, Some("cfg(unix)")),
    ];
    m.targets = vec![target(TargetKind::Lib, "root"), target(TargetKind::Test, "it")];
    m.third_party = vec![("alpha".to_string(), "team-a".to_string())];
    m
}

fn fixture() -> Metadata {
    let root = root_manifest();
    let mut alpha = pkg_stub(2, "alpha", "1.0.0");
    alpha.targets = vec![target(TargetKind::Lib, "alpha")];
    let mut beta = pkg_stub(3, "beta", "2.0.0");
    beta.targets = vec![target(TargetKind::Lib, "beta")];
    Metadata {
        packages: vec![root, alpha, beta],
        resolve: Resolve {
            root: Some(1),
            nodes: vec![
                Node {
                    id: 1,
                    features: Vec::new(),
                    deps: vec![
                        edge(2, Some("alpha"), vec![DepKind::Normal]),
                        edge(3, Some("beta_rs"), vec![DepKind::Normal]),
                    ],
                },
                Node { id: 2, features: vec!["std".to_string(), "extra".to_string()], deps: Vec::new() },
                Node { id: 3, features: Vec::new(), deps: Vec::new() },
            ],
        },
    }
}

#[test]
fn metadata_checks_out() {
    assert!(check_metadata(&fixture()));
    let mut broken = fixture();
    broken.resolve.root = None;
    assert!(!check_metadata(&broken));
    let mut broken = fixture();
    broken.resolve.root = Some(99);
    assert!(!check_metadata(&broken));
}

#[test]
fn root_package_is_recognized() {
    let idx = Index::new(true, fixture());
    assert!(idx.is_root_package(&pkg_stub(1, "root", "0.1.0")));
    assert!(!idx.is_root_package(&pkg_stub(2, "alpha", "1.0.0")));
}

#[test]
fn public_packages_are_root_and_first_order_deps() {
    let idx = Index::new(true, fixture());
    assert!(idx.is_public_package(&pkg_stub(1, "root", "0.1.0")));
    assert!(idx.is_public_package(&pkg_stub(2, "alpha", "1.0.0")));
    assert!(idx.is_public_package(&pkg_stub(3, "beta", "2.0.0")));
    assert!(!idx.is_public_package(&pkg_stub(99, "ghost", "0.0.0")));
}

#[test]
fn real_root_targets_are_public() {
    let idx = Index::new(true, fixture());
    let root = pkg_stub(1, "root", "0.1.0");
    assert!(idx.is_public_target(&root, TargetReq::Lib));
    assert!(idx.is_public_target(&root, TargetReq::EveryBin));
}

#[test]
fn unreal_root_targets_are_not_public() {
    let idx = Index::new(false, fixture());
    let root = pkg_stub(1, "root", "0.1.0");
    assert!(!idx.is_public_target(&root, TargetReq::Lib));
    assert!(!idx.is_public_target(&root, TargetReq::EveryBin));
    assert!(!idx.is_public_package(&root));
    // first-order dependencies stay public
    assert!(idx.is_public_package(&pkg_stub(2, "alpha", "1.0.0")));
}

#[test]
fn all_packages_returns_catalog() {
    let idx = Index::new(true, fixture());
    assert_eq!(idx.all_packages().len(), 3);
    assert_eq!(idx.all_packages()[1].name, "alpha");
}

#[test]
fn rule_names_use_rename() {
    let idx = Index::new(true, fixture());
    assert_eq!(idx.public_rule_name(&pkg_stub(2, "alpha", "1.0.0")).0, "alpha");
    assert_eq!(idx.public_rule_name(&pkg_stub(3, "beta", "2.0.0")).0, "beta-rs");
    assert_eq!(idx.private_rule_name(&pkg_stub(2, "alpha", "1.0.0")).0, "alpha-1.0.0");
    assert_eq!(idx.private_rule_name(&pkg_stub(3, "beta", "2.0.0")).0, "beta-2.0.0-beta-rs");
    // a package without any recorded library target gets the full version form
    assert_eq!(idx.private_rule_name(&pkg_stub(99, "ghost", "0.0.1")).0, "ghost-0.0.1");
}

#[test]
fn resolved_features_come_from_the_node() {
    let idx = Index::new(true, fixture());
    let feats = idx.resolved_features(&pkg_stub(2, "alpha", "1.0.0"));
    assert_eq!(feats.len(), 2);
    assert_eq!(feats[0], "std");
    assert_eq!(feats[1], "extra");
}

#[test]
fn deps_for_target_follows_the_table() {
    let idx = Index::new(true, fixture());
    let root = root_manifest();
    let lib = target(TargetKind::Lib, "root");
    let tst = target(TargetKind::Test, "it");
    assert_eq!(idx.deps_for_target(&root, &lib), vec![0, 1]);
    assert_eq!(idx.deps_for_target(&root, &tst), vec![2]);
}

#[test]
fn lib_target_merge() {
    let idx = Index::new(true, fixture());
    let root = root_manifest();
    let lib = target(TargetKind::Lib, "root");
    let deps = idx.resolved_deps_for_target(&root, &lib);
    assert_eq!(deps.len(), 2);
    assert_eq!(deps[0].rename, "alpha");
    assert!(deps[0].platform.is_none());
    assert_eq!(idx.all_packages()[deps[0].package].id, 2);
    assert_eq!(deps[1].rename, "beta_rs");
    assert_eq!(deps[1].platform.as_ref().unwrap().0, "cfg(windows)");
    assert_eq!(idx.all_packages()[deps[1].package].id, 3);
    assert_eq!(deps[1].dep_kind.kind, DepKind::Normal);
}

#[test]
fn test_target_merge_never_yields_normal_only_deps() {
    let idx = Index::new(true, fixture());
    let root = root_manifest();
    let tst = target(TargetKind::Test, "it");
    let deps = idx.resolved_deps_for_target(&root, &tst);
    // beta has only a Normal declaration, inapplicable to a test target
    assert_eq!(deps.len(), 1);
    assert_eq!(deps[0].rename, "alpha");
    assert_eq!(deps[0].platform.as_ref().unwrap().0, "cfg(unix)");
}

fn merge_fixture(gamma_decls: Vec<ManifestDep>) -> (Metadata, Manifest) {
    let mut root = pkg_stub(1, "root", "0.1.0");
    root.dependencies = gamma_decls;
    root.targets = vec![target(TargetKind::Lib, "root")];
    let gamma = pkg_stub(2, "gamma", "0.3.0");
    let meta = Metadata {
        packages: vec![clone_manifest(&root), gamma],
        resolve: Resolve {
            root: Some(1),
            nodes: vec![
                Node {
                    id: 1,
                    features: Vec::new(),
                    deps: vec![edge(2, Some("gamma"), vec![DepKind::Normal])],
                },
                Node { id: 2, features: Vec::new(), deps: Vec::new() },
            ],
        },
    };
    (meta, root)
}

fn clone_manifest(m: &Manifest) -> Manifest {
    Manifest {
        id: m.id,
        name: m.name.clone(),
        version: m.version.clone(),
        source: m.source.clone(),
        dependencies: m
            .dependencies
            .iter()
            .map(|d| ManifestDep {
                name: d.name.clone(),
                rename: d.rename.clone(),
                kind: d.kind,
                target: d.target.clone(),
            })
            .collect(),
        targets: m
            .targets
            .iter()
            .map(|t| ManifestTarget { kind: t.kind, name: t.name.clone() })
            .collect(),
        third_party: m.third_party.clone(),
    }
}

#[test]
fn two_conditions_disjoin() {
    let (meta, root) = merge_fixture(vec![
        dep("gamma", None, DepKind::Normal, Some("cfg(windows)")),
        dep("gamma", None, DepKind::Normal, Some("cfg(unix)")),
    ]);
    let idx = Index::new(true, meta);
    let deps = idx.resolved_deps_for_target(&root, &target(TargetKind::Lib, "root"));
    assert_eq!(deps.len(), 1);
    assert_eq!(deps[0].platform.as_ref().unwrap().0, "cfg(any(windows, unix))");
}

#[test]
fn unconditional_absorbs_regardless_of_order() {
    let (meta, root) = merge_fixture(vec![
        dep("gamma", None, DepKind::Normal, Some("cfg(windows)")),
        dep("gamma", None, DepKind::Normal, None),
        dep("gamma", None, DepKind::Normal, Some("cfg(unix)")),
    ]);
    let idx = Index::new(true, meta);
    let deps = idx.resolved_deps_for_target(&root, &target(TargetKind::Lib, "root"));
    assert_eq!(deps.len(), 1);
    assert!(deps[0].platform.is_none());
}

#[test]
fn unparseable_condition_is_dropped_from_the_group() {
    let (meta, root) = merge_fixture(vec![
        dep("gamma", None, DepKind::Normal, Some("oops")),
        dep("gamma", None, DepKind::Normal, Some("cfg(windows)")),
    ]);
    let idx = Index::new(true, meta);
    let deps = idx.resolved_deps_for_target(&root, &target(TargetKind::Lib, "root"));
    assert_eq!(deps.len(), 1);
    assert_eq!(deps[0].platform.as_ref().unwrap().0, "cfg(windows)");
}

#[test]
fn extra_meta_matches_direct_deps() {
    let idx = Index::new(true, fixture());
    let map = idx.get_extra_meta().unwrap();
    assert_eq!(map.len(), 1);
    assert_eq!(map[0].0, "alpha");
    assert_eq!(map[0].1.oncall, "team-a");
}

#[test]
fn extra_meta_unknown_keys_aggregate() {
    let mut meta = fixture();
    meta.packages[0].third_party = vec![
        ("alpha".to_string(), "team-a".to_string()),
        ("gamma".to_string(), "team-g".to_string()),
        ("delta".to_string(), "team-d".to_string()),
    ];
    let idx = Index::new(true, meta);
    let err = idx.get_extra_meta().unwrap_err();
    assert!(!err.all_ok());
    // the report is sorted and names each offending key once
    assert_eq!(err.extra, vec!["delta".to_string(), "gamma".to_string()]);
}

#[test]
fn package_nodes_are_resolvable() {
    let idx = Index::new(true, fixture());
    assert!(idx.check_package_node(&pkg_stub(2, "alpha", "1.0.0")));
    assert!(!idx.check_package_node(&pkg_stub(99, "ghost", "0.0.0")));
}

#[test]
fn duplicate_ids_collapse_to_last() {
    let mut meta = fixture();
    let mut replacement = pkg_stub(2, "alpha", "9.9.9");
    replacement.targets = vec![target(TargetKind::Lib, "alpha")];
    meta.packages.push(replacement);
    assert!(check_metadata(&meta));
    let idx = Index::new(true, meta);
    // one manifest per distinct id, the last inserted winning
    assert_eq!(idx.all_packages().len(), 3);
    let alpha = idx
        .all_packages()
        .iter()
        .find(|p| p.id == 2)
        .expect("alpha survives");
    assert_eq!(alpha.version, "9.9.9");
}

#[test]
fn unparseable_conditions_are_reported() {
    let (meta, root) = merge_fixture(vec![
        dep("gamma", None, DepKind::Normal, Some("oops")),
        dep("gamma", None, DepKind::Normal, Some("cfg(windows)")),
        dep("gamma", None, DepKind::Normal, None),
        dep("gamma", None, DepKind::Normal, Some("x86_64-unknown-linux-gnu")),
    ]);
    let idx = Index::new(true, meta);
    // indices of the declarations whose condition fails to parse
    assert_eq!(idx.unparseable_conditions(&root), vec![0, 3]);
}
