//! Selection of the package manager's target triplet: either read off an
//! explicitly named triplet, or inferred from the compiler's target string
//! through a fixed allow-list.
use vstd::prelude::*;

use crate::error::Error;
use crate::text::spec_contains;
use crate::text::spec_starts_with;

verus! {

/// One compilation target variant: the canonical triplet name, whether its
/// libraries are linked statically, the file suffix of its static or import
/// libraries, and whether a `lib` file-name prefix is stripped when forming a
/// linker directive.
#[derive(Clone, Debug)]
pub struct TargetTriplet {
    pub triplet: String,
    pub is_static: bool,
    pub lib_suffix: String,
    pub strip_lib_prefix: bool,
}

/// The mathematical content of a [`TargetTriplet`].
pub struct TripletView {
    pub triplet: Seq<char>,
    pub is_static: bool,
    pub lib_suffix: Seq<char>,
    pub strip_lib_prefix: bool,
}

impl View for TargetTriplet {
    type V = TripletView;

    open spec fn view(&self) -> TripletView {
        TripletView {
            triplet: self.triplet@,
            is_static: self.is_static,
            lib_suffix: self.lib_suffix@,
            strip_lib_prefix: self.strip_lib_prefix,
        }
    }
}

/// The conventions of a non-Windows triplet: static `.a` archives whose `lib`
/// prefix is stripped to form the link name.
pub open spec fn unix_triplet(name: Seq<char>) -> TripletView {
    TripletView { triplet: name, is_static: true, lib_suffix: "a"@, strip_lib_prefix: true }
}

/// The conventions of a Windows triplet: `.lib` files kept under their full
/// name.
pub open spec fn windows_triplet(name: Seq<char>, is_static: bool) -> TripletView {
    TripletView { triplet: name, is_static, lib_suffix: "lib"@, strip_lib_prefix: false }
}

/// What an explicitly named triplet means: Windows conventions when the name
/// mentions `windows` (static when it mentions `-static`), non-Windows
/// conventions otherwise.
pub open spec fn spec_triplet_of(name: Seq<char>) -> TripletView {
    if spec_contains(name, "windows"@) {
        windows_triplet(name, spec_contains(name, "-static"@))
    } else {
        unix_triplet(name)
    }
}

/// The fixed allow-list mapping a compiler target string (with the dynamic
/// opt-in and static-runtime signals) to a triplet, `None` for any target the
/// resolver does not support.
pub open spec fn spec_msvc_target(
    target: Seq<char>,
    is_definitely_dynamic: bool,
    is_static_crt: bool,
) -> Option<TripletView> {
    if target == "x86_64-apple-darwin"@ {
        Some(unix_triplet("x64-osx"@))
    } else if target == "aarch64-apple-darwin"@ {
        Some(unix_triplet("arm64-osx"@))
    } else if target == "x86_64-unknown-linux-gnu"@ {
        Some(unix_triplet("x64-linux"@))
    } else if target == "aarch64-apple-ios"@ {
        Some(unix_triplet("arm64-ios"@))
    } else if !spec_contains(target, "-pc-windows-msvc"@) {
        None
    } else if spec_starts_with(target, "x86_64-"@) {
        if is_static_crt {
            Some(windows_triplet("x64-windows-static"@, true))
        } else if is_definitely_dynamic {
            Some(windows_triplet("x64-windows"@, false))
        } else {
            Some(windows_triplet("x64-windows-static-md"@, true))
        }
    } else if spec_starts_with(target, "aarch64"@) {
        if is_static_crt {
            Some(windows_triplet("arm64-windows-static"@, true))
        } else if is_definitely_dynamic {
            Some(windows_triplet("arm64-windows"@, false))
        } else {
            Some(windows_triplet("arm64-windows-static-md"@, true))
        }
    } else {
        if is_static_crt {
            Some(windows_triplet("x86-windows-static"@, true))
        } else if is_definitely_dynamic {
            Some(windows_triplet("x86-windows"@, false))
        } else {
            Some(windows_triplet("x86-windows-static-md"@, true))
        }
    }
}

impl TargetTriplet {
    /// The triplet an explicitly given name selects, by naming conventions
    /// alone.
    pub fn from_name(name: &str) -> (t: TargetTriplet)
        ensures
            t@ == spec_triplet_of(name@),
    {
        proof {
            reveal_strlit("windows");
            reveal_strlit("-static");
        }
        if crate::text::contains_sub(name, "windows") {
            TargetTriplet {
                triplet: String::from_str(name),
                is_static: crate::text::contains_sub(name, "-static"),
                lib_suffix: String::from_str("lib"),
                strip_lib_prefix: false,
            }
        } else {
            TargetTriplet {
                triplet: String::from_str(name),
                is_static: true,
                lib_suffix: String::from_str("a"),
                strip_lib_prefix: true,
            }
        }
    }
}

/// Maps a compiler target string to a triplet through the allow-list in
/// [`spec_msvc_target`]; any unrecognized target, in particular a Windows
/// target with a non-MSVC ABI, is rejected.
pub fn msvc_target(target: &str, is_definitely_dynamic: bool, is_static_crt: bool) -> (r: Result<
    TargetTriplet,
    Error,
>)
    ensures
        match r {
            Ok(t) => spec_msvc_target(target@, is_definitely_dynamic, is_static_crt) == Some(t@),
            Err(e) => e == Error::NotMSVC && spec_msvc_target(
                target@,
                is_definitely_dynamic,
                is_static_crt,
            ) is None,
        },
{
    proof {
        reveal_strlit("-pc-windows-msvc");
    }
    if crate::text::str_eq(target, "x86_64-apple-darwin") {
        Ok(unix_target("x64-osx"))
    } else if crate::text::str_eq(target, "aarch64-apple-darwin") {
        Ok(unix_target("arm64-osx"))
    } else if crate::text::str_eq(target, "x86_64-unknown-linux-gnu") {
        Ok(unix_target("x64-linux"))
    } else if crate::text::str_eq(target, "aarch64-apple-ios") {
        Ok(unix_target("arm64-ios"))
    } else if !crate::text::contains_sub(target, "-pc-windows-msvc") {
        Err(Error::NotMSVC)
    } else if crate::text::has_prefix(target, "x86_64-") {
        if is_static_crt {
            Ok(windows_target("x64-windows-static", true))
        } else if is_definitely_dynamic {
            Ok(windows_target("x64-windows", false))
        } else {
            Ok(windows_target("x64-windows-static-md", true))
        }
    } else if crate::text::has_prefix(target, "aarch64") {
        if is_static_crt {
            Ok(windows_target("arm64-windows-static", true))
        } else if is_definitely_dynamic {
            Ok(windows_target("arm64-windows", false))
        } else {
            Ok(windows_target("arm64-windows-static-md", true))
        }
    } else {
        if is_static_crt {
            Ok(windows_target("x86-windows-static", true))
        } else if is_definitely_dynamic {
            Ok(windows_target("x86-windows", false))
        } else {
            Ok(windows_target("x86-windows-static-md", true))
        }
    }
}

/// A field-for-field copy of a triplet.
pub fn clone_triplet(t: &TargetTriplet) -> (r: TargetTriplet)
    ensures
        r@ == t@,
{
    TargetTriplet {
        triplet: t.triplet.clone(),
        is_static: t.is_static,
        lib_suffix: t.lib_suffix.clone(),
        strip_lib_prefix: t.strip_lib_prefix,
    }
}

fn unix_target(name: &str) -> (t: TargetTriplet)
    ensures
        t@ == unix_triplet(name@),
{
    TargetTriplet {
        triplet: String::from_str(name),
        is_static: true,
        lib_suffix: String::from_str("a"),
        strip_lib_prefix: true,
    }
}

fn windows_target(name: &str, is_static: bool) -> (t: TargetTriplet)
    ensures
        t@ == windows_triplet(name@, is_static),
{
    TargetTriplet {
        triplet: String::from_str(name),
        is_static,
        lib_suffix: String::from_str("lib"),
        strip_lib_prefix: false,
    }
}

} // verus!
