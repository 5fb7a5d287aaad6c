use vcpkg::InstallTree;
use vcpkg::NamedFile;
use vcpkg::Paragraph;
use vcpkg::TargetTriplet;
use vcpkg::VcpkgTarget;
use vcpkg::load_ports;
use vcpkg::load_status_lines;

fn strings(items: &[&str]) -> Vec<String> {
    items.iter().map(|s| s.to_string()).collect()
}

fn linux_target(root: &str) -> VcpkgTarget {
    VcpkgTarget::new(root, TargetTriplet::from_name("x64-linux"))
}

fn bare_tree() -> InstallTree {
    InstallTree {
        root: "/vc".to_string(),
        has_root_marker: true,
        status_lines: None,
        has_updates_dir: true,
        updates: Vec::new(),
        manifests: Vec::new(),
        pc_dirs: Vec::new(),
        triplet_dirs: Vec::new(),
    }
}

fn manifest(name: &str, lines: &[&str]) -> NamedFile {
    NamedFile { name: name.to_string(), lines: strings(lines) }
}

#[test]
fn paragraphs_split_on_blank_lines() {
    let lines = strings(&[
        "Package: a",
        "Version: 1",
        "",
        "Package: b",
        "Status: install ok installed",
    ]);
    let mut paras: Vec<Paragraph> = Vec::new();
    load_status_lines(&lines, &mut paras);
    assert_eq!(paras.len(), 2);
    assert_eq!(paras[0].package, Some("a".to_string()));
    assert_eq!(paras[0].version, Some("1".to_string()));
    assert_eq!(paras[0].status, None);
    // The unterminated trailing paragraph is still captured.
    assert_eq!(paras[1].package, Some("b".to_string()));
    assert_eq!(paras[1].status, Some("install ok installed".to_string()));
}

#[test]
fn extension_lines_are_ignored() {
    let lines = strings(&[
        "Package: a",
        "Description: a package with a",
        "  very long description",
        "Version: 1",
    ]);
    let mut paras: Vec<Paragraph> = Vec::new();
    load_status_lines(&lines, &mut paras);
    assert_eq!(paras.len(), 1);
    assert_eq!(paras[0].package, Some("a".to_string()));
    assert_eq!(paras[0].version, Some("1".to_string()));
}

#[test]
fn later_keys_win_within_a_paragraph() {
    let lines = strings(&["Package: a", "Package: b", "Version: 1"]);
    let mut paras: Vec<Paragraph> = Vec::new();
    load_status_lines(&lines, &mut paras);
    assert_eq!(paras.len(), 1);
    assert_eq!(paras[0].package, Some("b".to_string()));
}

#[test]
fn loads_installed_ports_of_the_target() {
    let mut tree = bare_tree();
    tree.status_lines = Some(strings(&[
        "Package: zlib",
        "Version: 1.2",
        "Architecture: x64-linux",
        "Status: install ok installed",
        "",
        "Package: otherarch",
        "Version: 1.0",
        "Architecture: arm64-osx",
        "Status: install ok installed",
        "",
        "Package: removed",
        "Version: 1.0",
        "Architecture: x64-linux",
        "Status: purge ok not-installed",
        "",
    ]));
    tree.manifests.push(manifest("zlib_1.2_x64-linux.list", &[
        "x64-linux/lib/libz.a",
        "x64-linux/lib/manual-link/libznested.a",
        "x64-linux/include/zlib.h",
    ]));
    let db = load_ports(&tree, &linux_target("/vc")).unwrap();
    let zlib = db.get("zlib").unwrap();
    assert_eq!(zlib.libs, strings(&["libz.a"]));
    assert!(zlib.dlls.is_empty());
    assert!(db.get("otherarch").is_none());
    assert!(db.get("removed").is_none());
}

#[test]
fn missing_manifest_is_fatal_with_its_path() {
    let mut tree = bare_tree();
    tree.status_lines = Some(strings(&[
        "Package: zlib",
        "Version: 1.2",
        "Architecture: x64-linux",
        "Status: install ok installed",
        "",
    ]));
    match load_ports(&tree, &linux_target("/vc")) {
        Err(vcpkg::Error::VcpkgInstallation(ref m)) => {
            assert_eq!(
                m,
                "Could not open port manifest file /vc/installed/vcpkg/info/zlib_1.2_x64-linux.list"
            );
        },
        other => panic!("expected a missing manifest, got {:?}", other),
    }
}

#[test]
fn orphan_feature_record_is_skipped() {
    let mut tree = bare_tree();
    tree.status_lines = Some(strings(&[
        "Package: ghost",
        "Feature: extras",
        "Depends: zlib",
        "Architecture: x64-linux",
        "Status: install ok installed",
        "",
    ]));
    let db = load_ports(&tree, &linux_target("/vc")).unwrap();
    // Loading neither fails nor invents a port for the orphan record.
    assert!(db.get("ghost").is_none());
}

#[test]
fn skipped_records_are_reported() {
    let mut tree = bare_tree();
    tree.status_lines = Some(strings(&[
        "Package: zlib",
        "Version: 1.2",
        "Architecture: x64-linux",
        "Status: install ok installed",
        "",
        "Package: ghost",
        "Feature: extras",
        "Architecture: x64-linux",
        "Status: install ok installed",
        "",
        "Package: shapeless",
        "Architecture: x64-linux",
        "Status: install ok installed",
        "",
        "Package: elsewhere",
        "Feature: extras",
        "Architecture: arm64-osx",
        "Status: install ok installed",
        "",
    ]));
    tree.manifests.push(manifest("zlib_1.2_x64-linux.list", &["x64-linux/lib/libz.a"]));
    let skipped = vcpkg::skipped_status_records(&tree, &linux_target("/vc"));
    // The orphan feature record and the versionless, featureless record are
    // reported; the constructed port and the other architecture's record are
    // not.
    assert_eq!(skipped.len(), 2);
    assert_eq!(skipped[0].package, Some("ghost".to_string()));
    assert_eq!(skipped[0].feature, Some("extras".to_string()));
    assert_eq!(skipped[1].package, Some("shapeless".to_string()));
    assert_eq!(skipped[1].feature, None);
}

#[test]
fn satisfied_feature_records_are_not_reported() {
    let mut tree = bare_tree();
    tree.status_lines = Some(strings(&[
        "Package: harfbuzz",
        "Version: 1.0",
        "Architecture: x64-linux",
        "Status: install ok installed",
        "",
        "Package: harfbuzz",
        "Feature: icu",
        "Depends: icu",
        "Architecture: x64-linux",
        "Status: install ok installed",
        "",
    ]));
    tree.manifests.push(manifest("harfbuzz_1.0_x64-linux.list", &["x64-linux/lib/libharfbuzz.a"]));
    let skipped = vcpkg::skipped_status_records(&tree, &linux_target("/vc"));
    assert!(skipped.is_empty());
}

#[test]
fn feature_records_extend_their_base_port() {
    let mut tree = bare_tree();
    tree.status_lines = Some(strings(&[
        "Package: harfbuzz",
        "Version: 1.0",
        "Architecture: x64-linux",
        "Status: install ok installed",
        "",
        "Package: harfbuzz",
        "Feature: icu",
        "Depends: icu",
        "Architecture: x64-linux",
        "Status: install ok installed",
        "",
    ]));
    tree.manifests.push(manifest("harfbuzz_1.0_x64-linux.list", &["x64-linux/lib/libharfbuzz.a"]));
    let db = load_ports(&tree, &linux_target("/vc")).unwrap();
    let hb = db.get("harfbuzz").unwrap();
    assert_eq!(hb.deps, strings(&["icu"]));
}

#[test]
fn updates_are_read_in_file_name_order() {
    // The same port appears in two update files with different versions; the
    // lexicographically later file must win, whatever order they arrive in.
    let mut tree = bare_tree();
    tree.updates.push(NamedFile {
        name: "update2".to_string(),
        lines: strings(&[
            "Package: zlib",
            "Version: 2.0",
            "Architecture: x64-linux",
            "Status: install ok installed",
            "",
        ]),
    });
    tree.updates.push(NamedFile {
        name: "update1".to_string(),
        lines: strings(&[
            "Package: zlib",
            "Version: 1.0",
            "Architecture: x64-linux",
            "Status: install ok installed",
            "",
        ]),
    });
    tree.manifests.push(manifest("zlib_2.0_x64-linux.list", &["x64-linux/lib/libz2.a"]));
    let db = load_ports(&tree, &linux_target("/vc")).unwrap();
    // Only version 2.0's manifest exists; had update1 won, loading would have
    // failed over the missing 1.0 manifest.
    assert_eq!(db.get("zlib").unwrap().libs, strings(&["libz2.a"]));
}

#[test]
fn unreadable_updates_directory_is_fatal() {
    let mut tree = bare_tree();
    tree.has_updates_dir = false;
    assert!(matches!(
        load_ports(&tree, &linux_target("/vc")),
        Err(vcpkg::Error::VcpkgInstallation(_))
    ));
}

#[test]
fn absent_status_file_is_not_an_error() {
    let tree = bare_tree();
    let db = load_ports(&tree, &linux_target("/vc")).unwrap();
    assert!(db.get("anything").is_none());
}

#[test]
fn port_graph_walk_orders_dependencies_last() {
    let mut tree = bare_tree();
    tree.status_lines = Some(strings(&[
        "Package: a",
        "Version: 1.0",
        "Depends: b",
        "Architecture: x64-linux",
        "Status: install ok installed",
        "",
        "Package: b",
        "Version: 1.0",
        "Depends: c",
        "Architecture: x64-linux",
        "Status: install ok installed",
        "",
        "Package: c",
        "Version: 1.0",
        "Architecture: x64-linux",
        "Status: install ok installed",
        "",
    ]));
    tree.manifests.push(manifest("a_1.0_x64-linux.list", &[]));
    tree.manifests.push(manifest("b_1.0_x64-linux.list", &[]));
    tree.manifests.push(manifest("c_1.0_x64-linux.list", &[]));
    let db = load_ports(&tree, &linux_target("/vc")).unwrap();
    let order = vcpkg::resolve_port_graph(&db, "a");
    assert_eq!(order, strings(&["a", "b", "c"]));
    // A dependency on a port the database does not know is dropped.
    let order = vcpkg::resolve_port_graph(&db, "c");
    assert_eq!(order, strings(&["c"]));
}
