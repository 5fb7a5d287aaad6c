use vcpkg::Config;
use vcpkg::EnvSnapshot;
use vcpkg::Error;
use vcpkg::InstallTree;
use vcpkg::Library;
use vcpkg::NamedFile;
use vcpkg::PcDir;
use vcpkg::PcText;
use vcpkg::TripletDir;

fn env_of(pairs: &[(&str, &str)]) -> EnvSnapshot {
    let mut env = EnvSnapshot::new();
    for (k, v) in pairs {
        env.push_var(k, v);
    }
    env
}

/// One port for a synthetic install tree: name, dependencies, static/import
/// library files, shared library files.
struct PortSpec {
    name: &'static str,
    deps: &'static [&'static str],
    libs: &'static [&'static str],
    dlls: &'static [&'static str],
}

fn port(name: &'static str, deps: &'static [&'static str], libs: &'static [&'static str]) -> PortSpec {
    PortSpec { name, deps, libs, dlls: &[] }
}

/// Builds an install tree rooted at `/vc` where every named port is installed
/// for the given triplet, every library file exists on disk, and each port's
/// manifest lists its files.
fn tree_with(triplet: &str, ports: &[PortSpec]) -> InstallTree {
    let mut status: Vec<String> = Vec::new();
    let mut manifests: Vec<NamedFile> = Vec::new();
    let mut lib_files: Vec<String> = Vec::new();
    let mut bin_files: Vec<String> = Vec::new();
    for p in ports {
        status.push(format!("Package: {}", p.name));
        status.push("Version: 1.0".to_string());
        if !p.deps.is_empty() {
            status.push(format!("Depends: {}", p.deps.join(", ")));
        }
        status.push(format!("Architecture: {}", triplet));
        status.push("Status: install ok installed".to_string());
        status.push("".to_string());
        let mut lines: Vec<String> = Vec::new();
        for f in p.libs {
            lines.push(format!("{}/lib/{}", triplet, f));
            lib_files.push(f.to_string());
        }
        for f in p.dlls {
            lines.push(format!("{}/bin/{}", triplet, f));
            bin_files.push(f.to_string());
        }
        manifests.push(NamedFile { name: format!("{}_1.0_{}.list", p.name, triplet), lines });
    }
    InstallTree {
        root: "/vc".to_string(),
        has_root_marker: true,
        status_lines: Some(status),
        has_updates_dir: true,
        updates: Vec::new(),
        manifests,
        pc_dirs: Vec::new(),
        triplet_dirs: vec![TripletDir { triplet: triplet.to_string(), lib_files, bin_files }],
    }
}

fn position(lib: &Library, name: &str) -> usize {
    lib.ports.iter().position(|x| x == name).unwrap()
}

fn check_before(lib: &Library, earlier: &str, later: &str) {
    assert!(position(lib, earlier) < position(lib, later));
}

#[test]
fn do_nothing_for_unsupported_target() {
    let env = env_of(&[("VCPKG_ROOT", "/"), ("TARGET", "x86_64-pc-windows-gnu")]);
    let tree = tree_with("x64-linux", &[port("foo", &[], &["libfoo.a"])]);
    assert!(matches!(Config::new().probe("foo", &env, &tree), Err(Error::NotMSVC)));
    assert!(matches!(Config::new().find_package("foo", &env, &tree), Err(Error::NotMSVC)));
}

#[test]
fn do_nothing_for_bailout_variables_set() {
    let tree = tree_with("x64-windows-static-md", &[port("foo", &[], &["foo.lib"])]);
    for &var in &["VCPKGRS_DISABLE", "VCPKGRS_NO_FOO", "FOO_NO_VCPKG", "NO_VCPKG"] {
        let env = env_of(&[
            ("VCPKG_ROOT", "/"),
            ("TARGET", "x86_64-pc-windows-msvc"),
            (var, "1"),
        ]);
        match Config::new().probe("foo", &env, &tree) {
            Err(Error::DisabledByEnv(ref v)) if v == var => {},
            other => panic!("probe under {} gave {:?}", var, other),
        }
        match Config::new().find_package("foo", &env, &tree) {
            Err(Error::DisabledByEnv(ref v)) if v == var => {},
            other => panic!("find_package under {} gave {:?}", var, other),
        }
    }
}

#[test]
fn global_disable_switch_is_checked_first() {
    // With the global and the per-package switch both set, the error names
    // the global one, and the tree's contents never matter: an invalid tree
    // gives the same answer.
    let env = env_of(&[
        ("TARGET", "x86_64-pc-windows-msvc"),
        ("VCPKGRS_DISABLE", "1"),
        ("VCPKGRS_NO_FOO", "1"),
    ]);
    let broken_tree = InstallTree {
        root: "/nowhere".to_string(),
        has_root_marker: false,
        status_lines: None,
        has_updates_dir: false,
        updates: Vec::new(),
        manifests: Vec::new(),
        pc_dirs: Vec::new(),
        triplet_dirs: Vec::new(),
    };
    match Config::new().find_package("foo", &env, &broken_tree) {
        Err(Error::DisabledByEnv(ref v)) if v == "VCPKGRS_DISABLE" => {},
        other => panic!("expected the global switch, got {:?}", other),
    }
    // The disable switches are consulted before target support.
    let env = env_of(&[("TARGET", "x86_64-pc-windows-gnu"), ("VCPKGRS_DISABLE", "1")]);
    match Config::new().find_package("foo", &env, &broken_tree) {
        Err(Error::DisabledByEnv(ref v)) if v == "VCPKGRS_DISABLE" => {},
        other => panic!("expected the switch to beat the target check, got {:?}", other),
    }
}

#[test]
fn static_build_finds_lib() {
    let env = env_of(&[
        ("TARGET", "x86_64-pc-windows-msvc"),
        ("CARGO_CFG_TARGET_FEATURE", "crt-static"),
        ("OUT_DIR", "/tmp/out"),
    ]);
    let tree = tree_with("x64-windows-static", &[port("libmysql", &[], &["libmysql.lib"])]);
    let lib = Config::new().find_package("libmysql", &env, &tree).unwrap();
    assert!(lib.is_static);
    assert_eq!(lib.vcpkg_triplet, "x64-windows-static".to_string());
    assert_eq!(lib.found_libs, vec![
        "/vc/installed/x64-windows-static/lib/libmysql.lib".to_string(),
    ]);
    assert_eq!(lib.found_names, vec!["libmysql".to_string()]);
    assert!(lib.found_dlls.is_empty());
}

#[test]
fn dynamic_build_finds_lib() {
    let env = env_of(&[
        ("TARGET", "x86_64-pc-windows-msvc"),
        ("VCPKGRS_DYNAMIC", "1"),
        ("OUT_DIR", "/tmp/out"),
    ]);
    let tree = tree_with(
        "x64-windows",
        &[PortSpec {
            name: "libmysql",
            deps: &[],
            libs: &["libmysql.lib"],
            dlls: &["libmysql.dll"],
        }],
    );
    let lib = Config::new().find_package("libmysql", &env, &tree).unwrap();
    assert!(!lib.is_static);
    assert_eq!(lib.found_dlls, vec!["/vc/installed/x64-windows/bin/libmysql.dll".to_string()]);
    // The shared libraries are copied to the output directory, and the
    // emitted search paths point there.
    assert!(lib.cargo_metadata.iter().any(|x| x == "cargo:rustc-link-search=native=/tmp/out"));
    assert!(lib.cargo_metadata.iter().any(|x| x == "cargo:rustc-link-search=/tmp/out"));
    assert_eq!(lib.dll_destinations("/tmp/out"), vec!["/tmp/out/libmysql.dll".to_string()]);
}

#[test]
fn dynamic_build_requires_explicit_opt_in() {
    let env = env_of(&[("TARGET", "x86_64-pc-windows-msvc"), ("OUT_DIR", "/tmp/out")]);
    let tree = tree_with("x64-windows", &[port("libmysql", &[], &["libmysql.lib"])]);
    // Forcing the fully dynamic triplet without VCPKGRS_DYNAMIC is refused.
    match Config::new().target_triplet("x64-windows").find_package("libmysql", &env, &tree) {
        Err(Error::RequiredEnvMissing(ref v)) if v == "VCPKGRS_DYNAMIC" => {},
        other => panic!("expected the missing opt-in, got {:?}", other),
    }
}

#[test]
fn handle_multiline_description() {
    let env = env_of(&[
        ("TARGET", "i686-pc-windows-msvc"),
        ("VCPKGRS_DYNAMIC", "1"),
        ("OUT_DIR", "/tmp/out"),
    ]);
    let triplet = "x86-windows";
    let status = vec![
        "Package: graphite2".to_string(),
        "Version: 1.0".to_string(),
        "Architecture: x86-windows".to_string(),
        "Description: a package with a".to_string(),
        "  very long description".to_string(),
        "Status: install ok installed".to_string(),
        "".to_string(),
    ];
    let tree = InstallTree {
        root: "/vc".to_string(),
        has_root_marker: true,
        status_lines: Some(status),
        has_updates_dir: true,
        updates: Vec::new(),
        manifests: vec![NamedFile {
            name: format!("graphite2_1.0_{}.list", triplet),
            lines: vec![format!("{}/lib/graphite2.lib", triplet)],
        }],
        pc_dirs: Vec::new(),
        triplet_dirs: vec![TripletDir {
            triplet: triplet.to_string(),
            lib_files: vec!["graphite2.lib".to_string()],
            bin_files: Vec::new(),
        }],
    };
    let lib = Config::new().find_package("graphite2", &env, &tree).unwrap();
    assert_eq!(lib.found_names, vec!["graphite2".to_string()]);
}

#[test]
fn link_libs_required_by_optional_features() {
    let env = env_of(&[
        ("TARGET", "i686-pc-windows-msvc"),
        ("VCPKGRS_DYNAMIC", "1"),
        ("OUT_DIR", "/tmp/out"),
    ]);
    let triplet = "x86-windows";
    let mut tree = tree_with(
        triplet,
        &[
            port("harfbuzz", &[], &["harfbuzz.lib"]),
            port("icu", &[], &["icuuc.lib"]),
        ],
    );
    // A feature paragraph of harfbuzz pulls in icu.
    let lines = tree.status_lines.as_mut().unwrap();
    lines.push(format!("Package: harfbuzz"));
    lines.push(format!("Feature: icu"));
    lines.push(format!("Architecture: {}", triplet));
    lines.push("Depends: icu".to_string());
    lines.push("Status: install ok installed".to_string());
    lines.push("".to_string());
    let lib = Config::new().find_package("harfbuzz", &env, &tree).unwrap();
    assert!(lib.cargo_metadata.iter().any(|x| x == "cargo:rustc-link-lib=icuuc"));
}

#[test]
fn link_lib_name_is_correct() {
    // On a prefix-stripping target the emitted link name drops `lib`.
    let env = env_of(&[("TARGET", "x86_64-apple-darwin"), ("OUT_DIR", "/tmp/out")]);
    let tree = tree_with("x64-osx", &[port("harfbuzz", &[], &["libharfbuzz.a"])]);
    let lib = Config::new().find_package("harfbuzz", &env, &tree).unwrap();
    assert!(lib.cargo_metadata.iter().any(|x| x == "cargo:rustc-link-lib=harfbuzz"));
    assert_eq!(lib.found_names, vec!["harfbuzz".to_string()]);
    // On a Windows target the full stem is the link name.
    let env = env_of(&[
        ("TARGET", "i686-pc-windows-msvc"),
        ("VCPKGRS_DYNAMIC", "1"),
        ("OUT_DIR", "/tmp/out"),
    ]);
    let tree = tree_with("x86-windows", &[port("harfbuzz", &[], &["harfbuzz.lib"])]);
    let lib = Config::new().find_package("harfbuzz", &env, &tree).unwrap();
    assert!(lib.cargo_metadata.iter().any(|x| x == "cargo:rustc-link-lib=harfbuzz"));
}

#[test]
fn link_dependencies_after_port() {
    let env = env_of(&[("TARGET", "x86_64-unknown-linux-gnu"), ("OUT_DIR", "/tmp/out")]);
    let tree = tree_with(
        "x64-linux",
        &[
            port("harfbuzz", &["freetype", "ragel"], &["libharfbuzz.a"]),
            port("freetype", &["zlib", "bzip2", "libpng"], &["libfreetype.a"]),
            port("libpng", &["zlib"], &["libpng.a"]),
            port("zlib", &[], &["libz.a"]),
            port("bzip2", &[], &["libbz2.a"]),
            port("ragel", &[], &[]),
        ],
    );
    let lib = Config::new().find_package("harfbuzz", &env, &tree).unwrap();
    check_before(&lib, "harfbuzz", "freetype");
    check_before(&lib, "harfbuzz", "ragel");
    check_before(&lib, "freetype", "zlib");
    check_before(&lib, "freetype", "bzip2");
    check_before(&lib, "freetype", "libpng");
    check_before(&lib, "libpng", "zlib");
}

#[test]
fn custom_target_triplet_in_config() {
    let env = env_of(&[
        ("TARGET", "aarch64-apple-ios"),
        ("VCPKGRS_DYNAMIC", "1"),
        ("OUT_DIR", "/tmp/out"),
    ]);
    let tree = tree_with("x64-osx", &[port("harfbuzz", &[], &["libharfbuzz.a"])]);
    let harfbuzz = Config::new().target_triplet("x64-osx").find_package("harfbuzz", &env, &tree);
    let harfbuzz = harfbuzz.unwrap();
    assert_eq!(harfbuzz.vcpkg_triplet, "x64-osx".to_string());
}

#[test]
fn custom_target_triplet_by_env_no_default() {
    let tree = tree_with("x64-osx", &[port("harfbuzz", &[], &["libharfbuzz.a"])]);
    let env = env_of(&[
        ("TARGET", "aarch64-apple-doesnotexist"),
        ("VCPKGRS_DYNAMIC", "1"),
        ("OUT_DIR", "/tmp/out"),
    ]);
    assert!(Config::new().find_package("harfbuzz", &env, &tree).is_err());
    let env = env_of(&[
        ("TARGET", "aarch64-apple-doesnotexist"),
        ("VCPKGRS_DYNAMIC", "1"),
        ("OUT_DIR", "/tmp/out"),
        ("VCPKGRS_TRIPLET", "x64-osx"),
    ]);
    let harfbuzz = Config::new().find_package("harfbuzz", &env, &tree).unwrap();
    assert_eq!(harfbuzz.vcpkg_triplet, "x64-osx".to_string());
}

#[test]
fn custom_target_triplet_by_env_with_default() {
    let arm_tree = tree_with("arm64-ios", &[port("harfbuzz", &[], &["libharfbuzz.a"])]);
    let env = env_of(&[
        ("TARGET", "aarch64-apple-ios"),
        ("VCPKGRS_DYNAMIC", "1"),
        ("OUT_DIR", "/tmp/out"),
    ]);
    let harfbuzz = Config::new().find_package("harfbuzz", &env, &arm_tree).unwrap();
    assert_eq!(harfbuzz.vcpkg_triplet, "arm64-ios".to_string());
    let osx_tree = tree_with("x64-osx", &[port("harfbuzz", &[], &["libharfbuzz.a"])]);
    let env = env_of(&[
        ("TARGET", "aarch64-apple-ios"),
        ("VCPKGRS_DYNAMIC", "1"),
        ("OUT_DIR", "/tmp/out"),
        ("VCPKGRS_TRIPLET", "x64-osx"),
    ]);
    let harfbuzz = Config::new().find_package("harfbuzz", &env, &osx_tree).unwrap();
    assert_eq!(harfbuzz.vcpkg_triplet, "x64-osx".to_string());
}

#[test]
fn missing_library_is_fatal_with_exact_path() {
    let env = env_of(&[("TARGET", "x86_64-unknown-linux-gnu"), ("OUT_DIR", "/tmp/out")]);
    let mut tree = tree_with("x64-linux", &[port("foo", &[], &["libfoo.a"])]);
    // The manifest claims libfoo.a, but the library directory is empty.
    tree.triplet_dirs[0].lib_files.clear();
    match Config::new().find_package("foo", &env, &tree) {
        Err(Error::LibNotFound(ref path)) => {
            assert_eq!(path, "/vc/installed/x64-linux/lib/libfoo.a");
        },
        other => panic!("expected the missing library's path, got {:?}", other),
    }
}

#[test]
fn package_not_installed_is_reported() {
    let env = env_of(&[("TARGET", "x86_64-unknown-linux-gnu"), ("OUT_DIR", "/tmp/out")]);
    let tree = tree_with("x64-linux", &[port("foo", &[], &["libfoo.a"])]);
    match Config::new().find_package("bar", &env, &tree) {
        Err(Error::LibNotFound(ref m)) => {
            assert_eq!(m, "package bar is not installed for vcpkg triplet x64-linux");
        },
        other => panic!("expected a missing package, got {:?}", other),
    }
}

#[test]
fn invalid_tree_root_is_rejected() {
    let env = env_of(&[("TARGET", "x86_64-unknown-linux-gnu"), ("OUT_DIR", "/tmp/out")]);
    let mut tree = tree_with("x64-linux", &[port("foo", &[], &["libfoo.a"])]);
    tree.has_root_marker = false;
    match Config::new().find_package("foo", &env, &tree) {
        Err(Error::VcpkgNotFound(ref m)) => {
            assert_eq!(m, "Could not find Vcpkg root at /vc/.vcpkg-root");
        },
        other => panic!("expected an invalid tree, got {:?}", other),
    }
}

#[test]
fn lib_name_override_bypasses_port_discovery() {
    let env = env_of(&[("TARGET", "x86_64-unknown-linux-gnu"), ("OUT_DIR", "/tmp/out")]);
    // The status database is empty; the explicitly named library is probed
    // for directly and the port list stays empty.
    let tree = InstallTree {
        root: "/vc".to_string(),
        has_root_marker: true,
        status_lines: None,
        has_updates_dir: true,
        updates: Vec::new(),
        manifests: Vec::new(),
        pc_dirs: Vec::new(),
        triplet_dirs: vec![TripletDir {
            triplet: "x64-linux".to_string(),
            lib_files: vec!["libssh.a".to_string()],
            bin_files: Vec::new(),
        }],
    };
    let lib = Config::new().lib_name("libssh").find_package("anything", &env, &tree).unwrap();
    assert!(lib.ports.is_empty());
    assert_eq!(lib.found_libs, vec!["/vc/installed/x64-linux/lib/libssh.a".to_string()]);
    assert_eq!(lib.found_names, vec!["ssh".to_string()]);
}

#[test]
fn probe_uses_the_port_name_as_the_library_stem() {
    let env = env_of(&[("TARGET", "x86_64-unknown-linux-gnu"), ("OUT_DIR", "/tmp/out")]);
    let tree = tree_with("x64-linux", &[port("unused", &[], &["libz.a"])]);
    let lib = Config::new().probe("libz", &env, &tree).unwrap();
    assert_eq!(lib.found_libs, vec!["/vc/installed/x64-linux/lib/libz.a".to_string()]);
    assert!(lib.ports.is_empty());
}

#[test]
fn emitted_metadata_lines_are_in_order() {
    let env = env_of(&[("TARGET", "x86_64-unknown-linux-gnu"), ("OUT_DIR", "/tmp/out")]);
    let tree = tree_with("x64-linux", &[port("zlib", &[], &["libz.a"])]);
    let lib = Config::new()
        .emit_includes(true)
        .find_package("zlib", &env, &tree)
        .unwrap();
    assert_eq!(lib.cargo_metadata, vec![
        "cargo:include=/vc/installed/x64-linux/include".to_string(),
        "cargo:rustc-link-search=native=/vc/installed/x64-linux/lib".to_string(),
        "cargo:rustc-link-lib=z".to_string(),
    ]);
    assert_eq!(lib.include_paths, vec!["/vc/installed/x64-linux/include".to_string()]);
    assert_eq!(lib.link_paths, vec!["/vc/installed/x64-linux/lib".to_string()]);
}

#[test]
fn intra_port_order_is_refined_by_metadata() {
    let env = env_of(&[("TARGET", "x86_64-unknown-linux-gnu"), ("OUT_DIR", "/tmp/out")]);
    let mut tree = tree_with(
        "x64-linux",
        &[port("brotli", &[], &["libbrotlicommon.a", "libbrotlidec.a"])],
    );
    tree.pc_dirs = vec![PcDir {
        key: "brotli_x64-linux".to_string(),
        files: vec![
            PcText {
                id: "libbrotlicommon".to_string(),
                text: "Libs: -lbrotlicommon\nRequires:".to_string(),
            },
            PcText {
                id: "libbrotlidec".to_string(),
                text: "Libs: -lbrotlidec\nRequires: libbrotlicommon".to_string(),
            },
        ],
    }];
    let lib = Config::new().find_package("brotli", &env, &tree).unwrap();
    // The decoder requires the common part, so the common part is linked
    // after it despite the manifest's alphabetic order.
    assert_eq!(
        lib.found_names,
        vec!["brotlidec".to_string(), "brotlicommon".to_string()],
    );
}
