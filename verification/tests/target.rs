use vcpkg::Error;
use vcpkg::TargetTriplet;
use vcpkg::msvc_target;

fn expect(t: &TargetTriplet, triplet: &str, is_static: bool, lib_suffix: &str, strip: bool) {
    assert_eq!(t.triplet, triplet.to_string());
    assert_eq!(t.is_static, is_static);
    assert_eq!(t.lib_suffix, lib_suffix.to_string());
    assert_eq!(t.strip_lib_prefix, strip);
}

#[test]
fn fixed_targets_resolve_to_static_triplets() {
    expect(&msvc_target("x86_64-apple-darwin", false, false).unwrap(), "x64-osx", true, "a", true);
    expect(
        &msvc_target("aarch64-apple-darwin", true, false).unwrap(),
        "arm64-osx",
        true,
        "a",
        true,
    );
    expect(
        &msvc_target("x86_64-unknown-linux-gnu", false, true).unwrap(),
        "x64-linux",
        true,
        "a",
        true,
    );
    expect(&msvc_target("aarch64-apple-ios", false, false).unwrap(), "arm64-ios", true, "a", true);
}

#[test]
fn windows_targets_pick_linkage_variants() {
    expect(
        &msvc_target("x86_64-pc-windows-msvc", false, true).unwrap(),
        "x64-windows-static",
        true,
        "lib",
        false,
    );
    expect(
        &msvc_target("x86_64-pc-windows-msvc", true, false).unwrap(),
        "x64-windows",
        false,
        "lib",
        false,
    );
    expect(
        &msvc_target("x86_64-pc-windows-msvc", false, false).unwrap(),
        "x64-windows-static-md",
        true,
        "lib",
        false,
    );
    expect(
        &msvc_target("aarch64-pc-windows-msvc", false, true).unwrap(),
        "arm64-windows-static",
        true,
        "lib",
        false,
    );
    expect(
        &msvc_target("aarch64-pc-windows-msvc", true, false).unwrap(),
        "arm64-windows",
        false,
        "lib",
        false,
    );
    expect(
        &msvc_target("aarch64-pc-windows-msvc", false, false).unwrap(),
        "arm64-windows-static-md",
        true,
        "lib",
        false,
    );
    expect(
        &msvc_target("i686-pc-windows-msvc", false, true).unwrap(),
        "x86-windows-static",
        true,
        "lib",
        false,
    );
    expect(
        &msvc_target("i686-pc-windows-msvc", true, false).unwrap(),
        "x86-windows",
        false,
        "lib",
        false,
    );
    expect(
        &msvc_target("i686-pc-windows-msvc", false, false).unwrap(),
        "x86-windows-static-md",
        true,
        "lib",
        false,
    );
    // A static C runtime wins over the dynamic opt-in.
    expect(
        &msvc_target("x86_64-pc-windows-msvc", true, true).unwrap(),
        "x64-windows-static",
        true,
        "lib",
        false,
    );
}

#[test]
fn unsupported_targets_are_rejected_for_every_other_input() {
    for &dynamic in &[false, true] {
        for &static_crt in &[false, true] {
            assert!(matches!(
                msvc_target("x86_64-pc-windows-gnu", dynamic, static_crt),
                Err(Error::NotMSVC)
            ));
            assert!(matches!(
                msvc_target("aarch64-apple-doesnotexist", dynamic, static_crt),
                Err(Error::NotMSVC)
            ));
            assert!(matches!(msvc_target("", dynamic, static_crt), Err(Error::NotMSVC)));
        }
    }
}

#[test]
fn named_triplets_follow_naming_conventions() {
    let t = TargetTriplet::from_name("x64-osx");
    expect(&t, "x64-osx", true, "a", true);
    let t = TargetTriplet::from_name("x64-windows");
    expect(&t, "x64-windows", false, "lib", false);
    let t = TargetTriplet::from_name("x64-windows-static");
    expect(&t, "x64-windows-static", true, "lib", false);
    let t = TargetTriplet::from_name("x64-windows-static-md");
    expect(&t, "x64-windows-static-md", true, "lib", false);
}

#[test]
fn error_descriptions_are_fixed() {
    assert_eq!(
        Error::NotMSVC.description(),
        "vcpkg-rs only can only find libraries for MSVC ABI builds"
    );
    assert_eq!(
        Error::DisabledByEnv("X".to_string()).description(),
        "vcpkg-rs requested to be aborted"
    );
    assert_eq!(
        Error::RequiredEnvMissing("X".to_string()).description(),
        "a required env setting is missing"
    );
    assert_eq!(Error::VcpkgNotFound("d".to_string()).description(), "could not find Vcpkg tree");
    assert_eq!(
        Error::LibNotFound("d".to_string()).description(),
        "could not find library in Vcpkg tree"
    );
    assert_eq!(
        Error::VcpkgInstallation("d".to_string()).description(),
        "could not look up details of packages in vcpkg tree"
    );
}

#[test]
fn envify_uppercases_and_substitutes() {
    assert_eq!(vcpkg::envify("libmysql"), "LIBMYSQL".to_string());
    assert_eq!(vcpkg::envify("glib-2.0"), "GLIB_2.0".to_string());
    assert_eq!(vcpkg::envify("foo"), "FOO".to_string());
}
