use vcpkg::PcFile;
use vcpkg::PcFiles;
use vcpkg::TargetTriplet;
use vcpkg::msvc_target;

fn strings(items: &[&str]) -> Vec<String> {
    items.iter().map(|s| s.to_string()).collect()
}

fn linux_triplet() -> TargetTriplet {
    msvc_target("x86_64-unknown-linux-gnu", false, false).unwrap()
}

fn pc_files_of(entries: &[(&str, &str)], t: &TargetTriplet) -> PcFiles {
    let mut files = PcFiles::new();
    for (id, text) in entries {
        files.add(PcFile::from_str(id, text, t).unwrap());
    }
    files
}

#[test]
fn pc_files_reordering() {
    let target_triplet = linux_triplet();

    // The brotli use-case.
    {
        let pc_files = pc_files_of(
            &[
                ("libbrotlicommon", "Libs: -lbrotlicommon-static\nRequires:"),
                ("libbrotlienc", "Libs: -lbrotlienc-static\nRequires: libbrotlicommon"),
                ("libbrotlidec", "Libs: -lbrotlidec-static\nRequires: libbrotlicommon >= 1.0.9"),
            ],
            &target_triplet,
        );
        // Note that the input is alphabetically sorted.
        let input_libs = strings(&[
            "libbrotlicommon-static.a",
            "libbrotlidec-static.a",
            "libbrotlienc-static.a",
        ]);
        let output_libs = pc_files.fix_ordering(input_libs);
        assert_eq!(output_libs[0], "libbrotlidec-static.a");
        assert_eq!(output_libs[1], "libbrotlienc-static.a");
        assert_eq!(output_libs[2], "libbrotlicommon-static.a");
    }

    // An elaborate dependency graph, tried in every input order, with some
    // ignored version bounds and extra libraries not described by any record.
    {
        let pc_files = pc_files_of(
            &[
                ("libA", "Libs: -lA\nRequires:"),
                ("libB", "Libs:  -lB -lm -pthread \nRequires: libA"),
                ("libC", "Libs: -lC -L${libdir}\nRequires: libB <=1.0 , libmysql-client = 0.9, "),
                ("libD", "Libs: -Lpath/to/libs -Rplugins -lD\nRequires: libpostgres libC"),
            ],
            &target_triplet,
        );
        let permutations: Vec<Vec<&str>> = vec![
            vec!["libA.a", "libB.a", "libC.a", "libD.a"],
            vec!["libA.a", "libB.a", "libD.a", "libC.a"],
            vec!["libA.a", "libC.a", "libB.a", "libD.a"],
            vec!["libA.a", "libC.a", "libD.a", "libB.a"],
            vec!["libA.a", "libD.a", "libB.a", "libC.a"],
            vec!["libA.a", "libD.a", "libC.a", "libB.a"],
            //
            vec!["libB.a", "libA.a", "libC.a", "libD.a"],
            vec!["libB.a", "libA.a", "libD.a", "libC.a"],
            vec!["libB.a", "libC.a", "libA.a", "libD.a"],
            vec!["libB.a", "libC.a", "libD.a", "libA.a"],
            vec!["libB.a", "libD.a", "libA.a", "libC.a"],
            vec!["libB.a", "libD.a", "libC.a", "libA.a"],
            //
            vec!["libC.a", "libA.a", "libB.a", "libD.a"],
            vec!["libC.a", "libA.a", "libD.a", "libB.a"],
            vec!["libC.a", "libB.a", "libA.a", "libD.a"],
            vec!["libC.a", "libB.a", "libD.a", "libA.a"],
            vec!["libC.a", "libD.a", "libA.a", "libB.a"],
            vec!["libC.a", "libD.a", "libB.a", "libA.a"],
            //
            vec!["libD.a", "libA.a", "libB.a", "libC.a"],
            vec!["libD.a", "libA.a", "libC.a", "libB.a"],
            vec!["libD.a", "libB.a", "libA.a", "libC.a"],
            vec!["libD.a", "libB.a", "libC.a", "libA.a"],
            vec!["libD.a", "libC.a", "libA.a", "libB.a"],
            vec!["libD.a", "libC.a", "libB.a", "libA.a"],
        ];
        for permutation in permutations {
            let input_libs = strings(&permutation);
            let output_libs = pc_files.fix_ordering(input_libs);
            assert_eq!(output_libs.len(), 4);
            assert_eq!(output_libs[0], "libD.a");
            assert_eq!(output_libs[1], "libC.a");
            assert_eq!(output_libs[2], "libB.a");
            assert_eq!(output_libs[3], "libA.a");
        }
    }

    // Parsing of a couple of different Requires: lines.
    {
        let pc_file =
            PcFile::from_str("test", "Libs: -ltest\nRequires: cairo libpng", &target_triplet)
                .unwrap();
        assert_eq!(pc_file.deps, strings(&["cairo", "libpng"]));
        let pc_file = PcFile::from_str(
            "test",
            "Libs: -ltest\nRequires: cairo xcb >= 1.6 xcb-render >= 1.6",
            &target_triplet,
        )
        .unwrap();
        assert_eq!(pc_file.deps, strings(&["cairo", "xcb", "xcb-render"]));
        let pc_file = PcFile::from_str(
            "test",
            "Libs: -ltest\nRequires: glib-2.0, gobject-2.0",
            &target_triplet,
        )
        .unwrap();
        assert_eq!(pc_file.deps, strings(&["glib-2.0", "gobject-2.0"]));
        let pc_file = PcFile::from_str(
            "test",
            "Libs: -ltest\nRequires: glib-2.0 >=  2.58.0, gobject-2.0 >=  2.58.0",
            &target_triplet,
        )
        .unwrap();
        assert_eq!(pc_file.deps, strings(&["glib-2.0", "gobject-2.0"]));
    }
}

#[test]
fn refinement_is_idempotent_once_converged() {
    let t = linux_triplet();
    let pc_files = pc_files_of(
        &[
            ("libA", "Libs: -lA\nRequires:"),
            ("libB", "Libs: -lB\nRequires: libA"),
            ("libC", "Libs: -lC\nRequires: libB"),
        ],
        &t,
    );
    let input = strings(&["libA.a", "libB.a", "libC.a"]);
    let once = pc_files.fix_ordering(input);
    let twice = pc_files.fix_ordering(once.clone());
    assert_eq!(once, twice);
    assert_eq!(once, strings(&["libC.a", "libB.a", "libA.a"]));
}

#[test]
fn refinement_preserves_entries() {
    let t = linux_triplet();
    let pc_files = pc_files_of(
        &[
            ("libA", "Libs: -lA\nRequires:"),
            ("libB", "Libs: -lB\nRequires: libA"),
        ],
        &t,
    );
    let input = strings(&["libA.a", "libA.a", "libB.a", "libz.a"]);
    let mut output = pc_files.fix_ordering(input.clone());
    let mut sorted_input = input.clone();
    sorted_input.sort();
    output.sort();
    assert_eq!(output, sorted_input);
}

#[test]
fn lib_flag_reconstruction_matches_target() {
    // On a target that strips the lib prefix, `-lfoo` names `libfoo.a`; on a
    // Windows target it names `foo.lib`.
    let unix = msvc_target("x86_64-apple-darwin", false, false).unwrap();
    let pc = PcFile::from_str("libfoo", "Libs: -lfoo\nRequires:", &unix).unwrap();
    assert_eq!(pc.libs, strings(&["libfoo.a"]));
    let win = msvc_target("x86_64-pc-windows-msvc", false, false).unwrap();
    let pc = PcFile::from_str("foo", "Libs: -lfoo\nRequires:", &win).unwrap();
    assert_eq!(pc.libs, strings(&["foo.lib"]));
}

#[test]
fn tie_between_declaring_records_goes_to_the_first_loaded() {
    // Two records declare the same library file; lookups take the record
    // loaded first, whichever order the requirements would prefer.
    let t = linux_triplet();
    let pc_files = pc_files_of(
        &[
            ("first", "Libs: -lshared\nRequires:"),
            ("second", "Libs: -lshared\nRequires: first"),
        ],
        &t,
    );
    let found = pc_files.locate_pc_file_by_lib("libshared.a").unwrap();
    assert_eq!(found.id, "first".to_string());
}

#[test]
fn record_loaded_again_replaces_the_earlier_one() {
    let t = linux_triplet();
    let mut files = PcFiles::new();
    files.add(PcFile::from_str("libA", "Libs: -lold\nRequires:", &t).unwrap());
    files.add(PcFile::from_str("libA", "Libs: -lnew\nRequires:", &t).unwrap());
    assert!(files.locate_pc_file_by_lib("libold.a").is_none());
    assert_eq!(files.locate_pc_file_by_lib("libnew.a").unwrap().id, "libA".to_string());
}

#[test]
fn line_values_run_to_the_end_of_the_line() {
    // The value of a recognized line is everything after its first colon;
    // later colons belong to the value.
    let t = linux_triplet();
    let pc = PcFile::from_str("test", "Libs: -ltest\nRequires: x:y", &t).unwrap();
    assert_eq!(pc.deps, strings(&["x:y"]));
    let pc = PcFile::from_str("test", "Libs: -lfoo -LC:/path -lbar\nRequires:", &t).unwrap();
    assert_eq!(pc.libs, strings(&["libfoo.a", "libbar.a"]));
}

#[test]
fn convergence_within_the_bound_is_reported() {
    let t = linux_triplet();
    let converging = pc_files_of(
        &[
            ("libbrotlicommon", "Libs: -lbrotlicommon-static\nRequires:"),
            ("libbrotlienc", "Libs: -lbrotlienc-static\nRequires: libbrotlicommon"),
            ("libbrotlidec", "Libs: -lbrotlidec-static\nRequires: libbrotlicommon"),
        ],
        &t,
    );
    let libs = strings(&[
        "libbrotlicommon-static.a",
        "libbrotlidec-static.a",
        "libbrotlienc-static.a",
    ]);
    assert!(converging.ordering_converged(&libs));
    // Two records each requiring the other's library oscillate forever, so
    // the bounded refinement gives up; a caller warns from this signal.
    let oscillating = pc_files_of(
        &[
            ("libA", "Libs: -lA\nRequires: libB"),
            ("libB", "Libs: -lB\nRequires: libA"),
        ],
        &t,
    );
    let libs = strings(&["libA.a", "libB.a"]);
    assert!(!oscillating.ordering_converged(&libs));
}

#[test]
fn metadata_lines_may_end_in_carriage_returns() {
    let t = linux_triplet();
    let pc = PcFile::from_str("libA", "Libs: -lA\r\nRequires: libB\r\n", &t).unwrap();
    assert_eq!(pc.libs, strings(&["libA.a"]));
    assert_eq!(pc.deps, strings(&["libB"]));
}

#[test]
fn locate_record_by_declared_library() {
    let t = linux_triplet();
    let pc_files = pc_files_of(
        &[
            ("libA", "Libs: -lA\nRequires:"),
            ("libB", "Libs: -lB\nRequires: libA"),
        ],
        &t,
    );
    let found = pc_files.locate_pc_file_by_lib("libB.a").unwrap();
    assert_eq!(found.id, "libB".to_string());
    assert!(pc_files.locate_pc_file_by_lib("libz.a").is_none());
}
