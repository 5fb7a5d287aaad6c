//! The concrete filesystem layout of one target triplet within one install
//! tree: where its libraries, binaries, headers, status database and per-port
//! package directories live. Paths are plain strings joined with `/`.
use vstd::prelude::*;

use crate::target_triplet::TargetTriplet;
use crate::target_triplet::TripletView;

verus! {

/// Paths and triplet for the chosen target, computed once per probe and
/// read-only afterwards.
pub struct VcpkgTarget {
    /// Directory of static and import libraries.
    pub lib_path: String,
    /// Directory of shared libraries.
    pub bin_path: String,
    /// Directory of include files.
    pub include_path: String,
    /// Directory containing the status file.
    pub status_path: String,
    /// Directory containing the install files per port.
    pub packages_path: String,
    /// Target-specific settings.
    pub target_triplet: TargetTriplet,
}

/// The mathematical content of a [`VcpkgTarget`].
pub struct VcpkgTargetView {
    pub lib_path: Seq<char>,
    pub bin_path: Seq<char>,
    pub include_path: Seq<char>,
    pub status_path: Seq<char>,
    pub packages_path: Seq<char>,
    pub target_triplet: TripletView,
}

impl View for VcpkgTarget {
    type V = VcpkgTargetView;

    open spec fn view(&self) -> VcpkgTargetView {
        VcpkgTargetView {
            lib_path: self.lib_path@,
            bin_path: self.bin_path@,
            include_path: self.include_path@,
            status_path: self.status_path@,
            packages_path: self.packages_path@,
            target_triplet: self.target_triplet@,
        }
    }
}

/// The layout the given triplet occupies under the given tree root.
pub open spec fn spec_target_layout(root: Seq<char>, t: TripletView) -> VcpkgTargetView {
    VcpkgTargetView {
        lib_path: root + "/installed/"@ + t.triplet + "/lib"@,
        bin_path: root + "/installed/"@ + t.triplet + "/bin"@,
        include_path: root + "/installed/"@ + t.triplet + "/include"@,
        status_path: root + "/installed/vcpkg"@,
        packages_path: root + "/packages"@,
        target_triplet: t,
    }
}

impl VcpkgTarget {
    /// Lays the given triplet out under the given tree root.
    pub fn new(root: &str, target_triplet: TargetTriplet) -> (r: VcpkgTarget)
        ensures
            r@ == spec_target_layout(root@, target_triplet@),
    {
        let lib_path = triplet_subdir(root, target_triplet.triplet.as_str(), "/lib");
        let bin_path = triplet_subdir(root, target_triplet.triplet.as_str(), "/bin");
        let include_path = triplet_subdir(root, target_triplet.triplet.as_str(), "/include");
        let mut status_path = String::from_str(root);
        crate::text::append_str(&mut status_path, "/installed/vcpkg");
        let mut packages_path = String::from_str(root);
        crate::text::append_str(&mut packages_path, "/packages");
        VcpkgTarget { lib_path, bin_path, include_path, status_path, packages_path, target_triplet }
    }

    /// The link name a library file of this target contributes: the file name
    /// itself, whatever the prefix conventions are.
    pub fn link_name_for_lib(&self, filename: &str) -> (r: Option<String>)
        ensures
            match r {
                Some(name) => name@ == filename@,
                None => false,
            },
    {
        if self.target_triplet.strip_lib_prefix {
            Some(String::from_str(filename))
        } else {
            Some(String::from_str(filename))
        }
    }
}

/// `root + "/installed/" + triplet + sub`.
fn triplet_subdir(root: &str, triplet: &str, sub: &str) -> (r: String)
    ensures
        r@ == root@ + "/installed/"@ + triplet@ + sub@,
{
    let mut s = String::from_str(root);
    crate::text::append_str(&mut s, "/installed/");
    crate::text::append_str(&mut s, triplet);
    crate::text::append_str(&mut s, sub);
    s
}

} // verus!
