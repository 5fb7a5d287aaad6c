//! Configuration of a probe, and the probe itself: the orchestrator that
//! wires target selection, the status database, the port graph walk, link
//! order and file verification together over the caller's snapshots.
use vstd::prelude::*;

use crate::env_snapshot::EnvSnapshot;
use crate::env_snapshot::EnvVarView;
use crate::env_snapshot::env_lookup;
use crate::env_snapshot::env_set;
use crate::error::Error;
use crate::install_tree::InstallTree;
use crate::install_tree::InstallTreeView;
use crate::install_tree::TripletDir;
use crate::install_tree::TripletDirView;
use crate::library::Library;
use crate::library::LibraryView;
use crate::spec_envify;
use crate::target_triplet::TargetTriplet;
use crate::target_triplet::TripletView;
use crate::target_triplet::spec_msvc_target;
use crate::target_triplet::spec_triplet_of;
use crate::text::seq_views;
use crate::text::spec_contains;
use crate::text::spec_starts_with;
use crate::vcpkg_target::VcpkgTarget;

verus! {

/// Configuration options for finding packages and shaping the emitted
/// metadata. Built by value, one option per call.
pub struct Config {
    /// Should the build-tool metadata actually be emitted by the caller.
    pub cargo_metadata: bool,
    /// Should an include-path directive be emitted.
    pub emit_includes: bool,
    /// Static or import library stems that must be found for probing to be
    /// considered successful; when empty, they come from the port's own
    /// manifest.
    pub required_libs: Vec<String>,
    /// Shared library stems that must be found for probing to be considered
    /// successful.
    pub required_dlls: Vec<String>,
    /// Should shared libraries be copied to the build output directory.
    pub copy_dlls: bool,
    /// Overrides the install tree root the caller should read.
    pub vcpkg_root: Option<String>,
    /// The chosen target, once selected or overridden.
    pub target: Option<TargetTriplet>,
}

/// The mathematical content of a [`Config`].
pub struct ConfigView {
    pub cargo_metadata: bool,
    pub emit_includes: bool,
    pub required_libs: Seq<Seq<char>>,
    pub required_dlls: Seq<Seq<char>>,
    pub copy_dlls: bool,
    pub vcpkg_root: Option<Seq<char>>,
    pub target: Option<TripletView>,
}

impl View for Config {
    type V = ConfigView;

    open spec fn view(&self) -> ConfigView {
        ConfigView {
            cargo_metadata: self.cargo_metadata,
            emit_includes: self.emit_includes,
            required_libs: seq_views(self.required_libs@),
            required_dlls: seq_views(self.required_dlls@),
            copy_dlls: self.copy_dlls,
            vcpkg_root: match self.vcpkg_root {
                Some(r) => Some(r@),
                None => None,
            },
            target: match self.target {
                Some(t) => Some(t@),
                None => None,
            },
        }
    }
}

/// The first disable switch set in the environment, in the order the probe
/// consults them: the global switches before the per-package ones.
pub open spec fn disabled_switch(env: Seq<EnvVarView>, port: Seq<char>) -> Option<Seq<char>> {
    if env_set(env, "VCPKGRS_DISABLE"@) {
        Some("VCPKGRS_DISABLE"@)
    } else if env_set(env, "NO_VCPKG"@) {
        Some("NO_VCPKG"@)
    } else if env_set(env, "VCPKGRS_NO_"@ + spec_envify(port)) {
        Some("VCPKGRS_NO_"@ + spec_envify(port))
    } else if env_set(env, spec_envify(port) + "_NO_VCPKG"@) {
        Some(spec_envify(port) + "_NO_VCPKG"@)
    } else {
        None
    }
}

/// Which triplet a probe under this configuration selects: an explicit
/// override wins, then a triplet named in the environment, then the inference
/// from the compiler's target string; `None` when the target is unsupported.
pub open spec fn chosen_triplet(cfg: ConfigView, env: Seq<EnvVarView>) -> Option<TripletView> {
    match cfg.target {
        Some(t) => Some(t),
        None => match env_lookup(env, "VCPKGRS_TRIPLET"@) {
            Some(v) => Some(spec_triplet_of(v)),
            None => spec_msvc_target(
                match env_lookup(env, "TARGET"@) {
                    Some(t) => t,
                    None => Seq::empty(),
                },
                env_set(env, "VCPKGRS_DYNAMIC"@),
                match env_lookup(env, "CARGO_CFG_TARGET_FEATURE"@) {
                    Some(f) => spec_contains(f, "crt-static"@),
                    None => false,
                },
            ),
        },
    }
}

/// Returns the disable switch the environment has set against this package,
/// if any; the error carries the switch's name.
pub fn check_disabled(port_name: &str, env: &EnvSnapshot) -> (r: Option<Error>)
    ensures
        match disabled_switch(env@, port_name@) {
            Some(name) => match r {
                Some(e) => match e {
                    Error::DisabledByEnv(n) => n@ == name,
                    _ => false,
                },
                None => false,
            },
            None => r is None,
        },
{
    if env.is_set("VCPKGRS_DISABLE") {
        return Some(Error::DisabledByEnv(String::from_str("VCPKGRS_DISABLE")));
    }
    if env.is_set("NO_VCPKG") {
        return Some(Error::DisabledByEnv(String::from_str("NO_VCPKG")));
    }
    let mut abort_var_name = String::from_str("VCPKGRS_NO_");
    let envified = crate::envify(port_name);
    crate::text::append_str(&mut abort_var_name, envified.as_str());
    if env.is_set(abort_var_name.as_str()) {
        return Some(Error::DisabledByEnv(abort_var_name));
    }
    let mut old_var_name = envified;
    crate::text::append_str(&mut old_var_name, "_NO_VCPKG");
    if env.is_set(old_var_name.as_str()) {
        return Some(Error::DisabledByEnv(old_var_name));
    }
    None
}

/// The first triplet directory listing of the given triplet, if any.
pub open spec fn find_triplet_dir(dirs: Seq<TripletDirView>, triplet: Seq<char>) -> Option<
    TripletDirView,
>
    decreases dirs.len(),
{
    if dirs.len() == 0 {
        None
    } else if dirs[0].triplet == triplet {
        Some(dirs[0])
    } else {
        find_triplet_dir(dirs.drop_first(), triplet)
    }
}

pub proof fn lemma_find_triplet_dir(dirs: Seq<TripletDirView>, triplet: Seq<char>)
    ensures
        match find_triplet_dir(dirs, triplet) {
            Some(d) => exists|i: int|
                0 <= i < dirs.len() && dirs[i] == d && dirs[i].triplet == triplet && (forall|j: int|
                    0 <= j < i ==> dirs[j].triplet != triplet),
            None => forall|j: int| 0 <= j < dirs.len() ==> dirs[j].triplet != triplet,
        },
    decreases dirs.len(),
{
    if dirs.len() > 0 {
        if dirs[0].triplet == triplet {
            assert(dirs[0] == find_triplet_dir(dirs, triplet)->Some_0);
        } else {
            lemma_find_triplet_dir(dirs.drop_first(), triplet);
            let t = dirs.drop_first();
            match find_triplet_dir(t, triplet) {
                Some(d) => {
                    let i = choose|i: int|
                        0 <= i < t.len() && t[i] == d && t[i].triplet == triplet && (forall|j: int|
                            0 <= j < i ==> t[j].triplet != triplet);
                    assert(dirs[i + 1] == t[i]);
                    assert forall|j: int| 0 <= j < i + 1 implies dirs[j].triplet != triplet by {
                        if j > 0 {
                            assert(t[j - 1] == dirs[j]);
                        }
                    }
                },
                None => {
                    assert forall|j: int| 0 <= j < dirs.len() implies dirs[j].triplet
                        != triplet by {
                        if j > 0 {
                            assert(t[j - 1] == dirs[j]);
                        }
                    }
                },
            }
        }
    }
}

/// The file names in the triplet's library directory; empty for a triplet
/// without one.
pub open spec fn lib_listing(tree: InstallTreeView, triplet: Seq<char>) -> Seq<Seq<char>> {
    match find_triplet_dir(tree.triplet_dirs, triplet) {
        Some(d) => d.lib_files,
        None => Seq::empty(),
    }
}

/// The file names in the triplet's binary directory; empty for a triplet
/// without one.
pub open spec fn bin_listing(tree: InstallTreeView, triplet: Seq<char>) -> Seq<Seq<char>> {
    match find_triplet_dir(tree.triplet_dirs, triplet) {
        Some(d) => d.bin_files,
        None => Seq::empty(),
    }
}

/// Whether the named file exists in the triplet's library directory.
fn lib_listed(tree: &InstallTree, triplet: &str, fname: &str) -> (r: bool)
    ensures
        r == lib_listing(tree@, triplet@).contains(fname@),
{
    match find_dir(tree, triplet) {
        Some(d) => crate::text::vec_contains_str(&d.lib_files, fname),
        None => {
            proof {
                assert(!lib_listing(tree@, triplet@).contains(fname@));
            }
            false
        },
    }
}

/// Whether the named file exists in the triplet's binary directory.
fn bin_listed(tree: &InstallTree, triplet: &str, fname: &str) -> (r: bool)
    ensures
        r == bin_listing(tree@, triplet@).contains(fname@),
{
    match find_dir(tree, triplet) {
        Some(d) => crate::text::vec_contains_str(&d.bin_files, fname),
        None => {
            proof {
                assert(!bin_listing(tree@, triplet@).contains(fname@));
            }
            false
        },
    }
}

fn find_dir<'a>(tree: &'a InstallTree, triplet: &str) -> (r: Option<&'a TripletDir>)
    ensures
        match r {
            Some(d) => find_triplet_dir(tree@.triplet_dirs, triplet@) == Some(d@),
            None => find_triplet_dir(tree@.triplet_dirs, triplet@) is None,
        },
{
    let ghost dviews = tree@.triplet_dirs;
    let n = tree.triplet_dirs.len();
    let mut i: usize = 0;
    while i < n
        invariant
            n == tree.triplet_dirs@.len(),
            dviews == tree@.triplet_dirs,
            i <= n,
            forall|j: int| 0 <= j < i ==> dviews[j].triplet != triplet@,
        decreases n - i,
    {
        assert(dviews[i as int] == tree.triplet_dirs@[i as int]@);
        if crate::text::str_eq(tree.triplet_dirs[i].triplet.as_str(), triplet) {
            proof {
                lemma_find_triplet_dir(dviews, triplet@);
                match find_triplet_dir(dviews, triplet@) {
                    Some(d) => {
                        let w = choose|w: int|
                            0 <= w < dviews.len() && dviews[w] == d && dviews[w].triplet == triplet@
                                && (forall|j: int| 0 <= j < w ==> dviews[j].triplet != triplet@);
                        assert(!(w < i) && !(i < w));
                        assert(find_triplet_dir(dviews, triplet@) == Some(dviews[i as int]));
                    },
                    None => {
                        assert(dviews[i as int].triplet == triplet@);
                    },
                }
            }
            return Some(&tree.triplet_dirs[i]);
        }
        assert(dviews[i as int].triplet != triplet@);
        i += 1;
    }
    proof {
        lemma_find_triplet_dir(dviews, triplet@);
        if find_triplet_dir(dviews, triplet@) is Some {
            let d = find_triplet_dir(dviews, triplet@)->Some_0;
            let w = choose|w: int|
                0 <= w < dviews.len() && dviews[w] == d && dviews[w].triplet == triplet@ && (forall|
                    j: int,
                |
                    0 <= j < w ==> dviews[j].triplet != triplet@);
            assert(dviews[w].triplet == triplet@);
        }
    }
    None
}

/// A library stem with every leading `lib` removed, as link names are formed
/// on targets that strip the prefix.
pub open spec fn strip_lib_repeat(s: Seq<char>) -> Seq<char>
    decreases s.len(),
{
    if spec_starts_with(s, "lib"@) && s.len() >= 3 {
        strip_lib_repeat(s.skip(3))
    } else {
        s
    }
}

/// The link name a required library stem contributes.
pub open spec fn link_name_of(stem: Seq<char>, strip: bool) -> Seq<char> {
    if strip {
        strip_lib_repeat(stem)
    } else {
        stem
    }
}

pub open spec fn link_names(stems: Seq<Seq<char>>, strip: bool) -> Seq<Seq<char>> {
    stems.map_values(|s: Seq<char>| link_name_of(s, strip))
}

pub open spec fn link_lib_lines(stems: Seq<Seq<char>>, strip: bool) -> Seq<Seq<char>> {
    stems.map_values(|s: Seq<char>| "cargo:rustc-link-lib="@ + link_name_of(s, strip))
}

/// The file name a required library stem must exist under.
pub open spec fn lib_file_of(stem: Seq<char>, suffix: Seq<char>) -> Seq<char> {
    stem + "."@ + suffix
}

pub open spec fn lib_paths_of(stems: Seq<Seq<char>>, dir: Seq<char>, suffix: Seq<char>) -> Seq<
    Seq<char>,
> {
    stems.map_values(|s: Seq<char>| dir + "/"@ + lib_file_of(s, suffix))
}

pub open spec fn dll_file_of(stem: Seq<char>) -> Seq<char> {
    stem + ".dll"@
}

pub open spec fn dll_paths_of(stems: Seq<Seq<char>>, dir: Seq<char>) -> Seq<Seq<char>> {
    stems.map_values(|s: Seq<char>| dir + "/"@ + dll_file_of(s))
}

/// Index of the first required library whose file is not in the listing.
pub open spec fn first_missing_lib(
    stems: Seq<Seq<char>>,
    listing: Seq<Seq<char>>,
    suffix: Seq<char>,
) -> Option<int>
    decreases stems.len(),
{
    if stems.len() == 0 {
        None
    } else if !listing.contains(lib_file_of(stems[0], suffix)) {
        Some(0int)
    } else {
        match first_missing_lib(stems.drop_first(), listing, suffix) {
            Some(i) => Some(i + 1),
            None => None,
        }
    }
}

pub proof fn lemma_first_missing_lib(stems: Seq<Seq<char>>, listing: Seq<Seq<char>>, suffix: Seq<char>)
    ensures
        match first_missing_lib(stems, listing, suffix) {
            Some(i) => 0 <= i < stems.len() && !listing.contains(lib_file_of(stems[i], suffix)) && (
            forall|j: int| 0 <= j < i ==> listing.contains(lib_file_of(stems[j], suffix))),
            None => forall|j: int|
                0 <= j < stems.len() ==> listing.contains(lib_file_of(stems[j], suffix)),
        },
    decreases stems.len(),
{
    if stems.len() > 0 && listing.contains(lib_file_of(stems[0], suffix)) {
        lemma_first_missing_lib(stems.drop_first(), listing, suffix);
        let t = stems.drop_first();
        match first_missing_lib(t, listing, suffix) {
            Some(i) => {
                assert(stems[i + 1] == t[i]);
                assert forall|j: int| 0 <= j < i + 1 implies listing.contains(
                    lib_file_of(stems[j], suffix),
                ) by {
                    if j > 0 {
                        assert(t[j - 1] == stems[j]);
                    }
                }
            },
            None => {
                assert forall|j: int| 0 <= j < stems.len() implies listing.contains(
                    lib_file_of(stems[j], suffix),
                ) by {
                    if j > 0 {
                        assert(t[j - 1] == stems[j]);
                    }
                }
            },
        }
    }
}

/// Index of the first required shared library whose file is not in the
/// listing.
pub open spec fn first_missing_dll(stems: Seq<Seq<char>>, listing: Seq<Seq<char>>) -> Option<int>
    decreases stems.len(),
{
    if stems.len() == 0 {
        None
    } else if !listing.contains(dll_file_of(stems[0])) {
        Some(0int)
    } else {
        match first_missing_dll(stems.drop_first(), listing) {
            Some(i) => Some(i + 1),
            None => None,
        }
    }
}

pub proof fn lemma_first_missing_dll(stems: Seq<Seq<char>>, listing: Seq<Seq<char>>)
    ensures
        match first_missing_dll(stems, listing) {
            Some(i) => 0 <= i < stems.len() && !listing.contains(dll_file_of(stems[i])) && (forall|
                j: int,
            | 0 <= j < i ==> listing.contains(dll_file_of(stems[j]))),
            None => forall|j: int| 0 <= j < stems.len() ==> listing.contains(dll_file_of(stems[j])),
        },
    decreases stems.len(),
{
    if stems.len() > 0 && listing.contains(dll_file_of(stems[0])) {
        lemma_first_missing_dll(stems.drop_first(), listing);
        let t = stems.drop_first();
        match first_missing_dll(t, listing) {
            Some(i) => {
                assert(stems[i + 1] == t[i]);
                assert forall|j: int| 0 <= j < i + 1 implies listing.contains(
                    dll_file_of(stems[j]),
                ) by {
                    if j > 0 {
                        assert(t[j - 1] == stems[j]);
                    }
                }
            },
            None => {
                assert forall|j: int| 0 <= j < stems.len() implies listing.contains(
                    dll_file_of(stems[j]),
                ) by {
                    if j > 0 {
                        assert(t[j - 1] == stems[j]);
                    }
                }
            },
        }
    }
}

/// A stem with every leading `lib` removed.
fn strip_lib_prefix_str(s: &str) -> (r: String)
    ensures
        r@ == strip_lib_repeat(s@),
{
    proof {
        reveal_strlit("lib");
    }
    let mut start: usize = 0;
    let slen = s.unicode_len();
    proof {
        assert(s@.skip(0) =~= s@);
    }
    while start < slen && slen - start >= 3 && s.get_char(start) == 'l' && s.get_char(start + 1)
        == 'i' && s.get_char(start + 2) == 'b'
        invariant
            slen == s@.len(),
            start <= slen,
            strip_lib_repeat(s@) == strip_lib_repeat(s@.skip(start as int)),
        decreases slen - start,
    {
        proof {
            reveal_strlit("lib");
            let cur = s@.skip(start as int);
            assert(cur[0] == s@[start as int] && cur[1] == s@[start + 1] && cur[2] == s@[start
                + 2]);
            assert(cur.subrange(0, 3) =~= "lib"@);
            assert(spec_starts_with(cur, "lib"@));
            assert(cur.skip(3) =~= s@.skip(start + 3));
        }
        start += 3;
    }
    proof {
        reveal_strlit("lib");
        let cur = s@.skip(start as int);
        if spec_starts_with(cur, "lib"@) && cur.len() >= 3 {
            assert(cur[0] == cur.subrange(0, 3)[0] && cur[1] == cur.subrange(0, 3)[1] && cur[2]
                == cur.subrange(0, 3)[2]);
            assert(start + 3 <= slen && s@[start as int] == 'l' && s@[start + 1] == 'i' && s@[start
                + 2] == 'b');
        }
        assert(strip_lib_repeat(cur) == cur);
    }
    String::from_str(s.substring_char(start, slen))
}

/// The directive lines emitted before the per-library ones: the include path
/// when asked for, the library search path, and the binary search path for a
/// dynamic target.
pub open spec fn base_metadata(
    emit_includes: bool,
    t: TripletView,
    layout: crate::vcpkg_target::VcpkgTargetView,
) -> Seq<Seq<char>> {
    (if emit_includes {
        seq!["cargo:include="@ + layout.include_path]
    } else {
        Seq::empty()
    }) + seq!["cargo:rustc-link-search=native="@ + layout.lib_path] + (if t.is_static {
        Seq::empty()
    } else {
        seq!["cargo:rustc-link-search=native="@ + layout.bin_path]
    })
}

/// The directive lines pointing the search path at the build output
/// directory, emitted when shared libraries were copied there.
pub open spec fn out_dir_lines(out_dir: Seq<char>) -> Seq<Seq<char>> {
    seq![
        "cargo:rustc-link-search=native="@ + out_dir,
        "cargo:rustc-link-search="@ + out_dir,
    ]
}

/// The result a successful probe assembles, determined by the emit options,
/// the target, its layout, the contributing port order, the required library
/// and shared-library stems, and any trailing output-directory lines.
pub open spec fn expected_library(
    emit_includes: bool,
    t: TripletView,
    layout: crate::vcpkg_target::VcpkgTargetView,
    ports: Seq<Seq<char>>,
    libs: Seq<Seq<char>>,
    dlls: Seq<Seq<char>>,
    extra: Seq<Seq<char>>,
) -> LibraryView {
    LibraryView {
        link_paths: seq![layout.lib_path],
        dll_paths: if t.is_static {
            Seq::empty()
        } else {
            seq![layout.bin_path]
        },
        include_paths: seq![layout.include_path],
        cargo_metadata: base_metadata(emit_includes, t, layout) + link_lib_lines(
            libs,
            t.strip_lib_prefix,
        ) + extra,
        is_static: t.is_static,
        found_dlls: if t.is_static {
            Seq::empty()
        } else {
            dll_paths_of(dlls, layout.bin_path)
        },
        found_libs: lib_paths_of(libs, layout.lib_path, t.lib_suffix),
        found_names: link_names(libs, t.strip_lib_prefix),
        ports: ports,
        vcpkg_triplet: t.triplet,
    }
}

impl Config {
    /// Emits one link directive per required library, records its link name
    /// and verifies that its file exists in the target's library directory,
    /// then verifies each required shared library of a dynamic target; the
    /// first missing file is fatal, the error carrying its full path.
    pub fn emit_libs(&self, lib: &mut Library, vcpkg_target: &VcpkgTarget, tree: &InstallTree) -> (
        r: Result<(), Error>)
        ensures
            ({
                let stems = seq_views(self.required_libs@);
                let dstems = seq_views(self.required_dlls@);
                let t = vcpkg_target@.target_triplet;
                let libl = lib_listing(tree@, t.triplet);
                let binl = bin_listing(tree@, t.triplet);
                match first_missing_lib(stems, libl, t.lib_suffix) {
                    Some(i) => match r {
                        Ok(_) => false,
                        Err(e) => match e {
                            Error::LibNotFound(m) => m@ == vcpkg_target@.lib_path + "/"@
                                + lib_file_of(stems[i], t.lib_suffix),
                            _ => false,
                        },
                    },
                    None => if !t.is_static && first_missing_dll(dstems, binl) is Some {
                        let i = first_missing_dll(dstems, binl)->Some_0;
                        match r {
                            Ok(_) => false,
                            Err(e) => match e {
                                Error::LibNotFound(m) => m@ == vcpkg_target@.bin_path + "/"@
                                    + dll_file_of(dstems[i]),
                                _ => false,
                            },
                        }
                    } else {
                        r is Ok && final(lib)@ == (LibraryView {
                            cargo_metadata: old(lib)@.cargo_metadata + link_lib_lines(
                                stems,
                                t.strip_lib_prefix,
                            ),
                            found_names: old(lib)@.found_names + link_names(
                                stems,
                                t.strip_lib_prefix,
                            ),
                            found_libs: old(lib)@.found_libs + lib_paths_of(
                                stems,
                                vcpkg_target@.lib_path,
                                t.lib_suffix,
                            ),
                            found_dlls: old(lib)@.found_dlls + (if t.is_static {
                                Seq::<Seq<char>>::empty()
                            } else {
                                dll_paths_of(dstems, vcpkg_target@.bin_path)
                            }),
                            ..old(lib)@
                        })
                    },
                }
            }),
            final(lib)@.is_static == old(lib)@.is_static,
            final(lib)@.ports == old(lib)@.ports,
            final(lib)@.include_paths == old(lib)@.include_paths,
            final(lib)@.link_paths == old(lib)@.link_paths,
            final(lib)@.dll_paths == old(lib)@.dll_paths,
            final(lib)@.vcpkg_triplet == old(lib)@.vcpkg_triplet,
    {
        let t: &TargetTriplet = &vcpkg_target.target_triplet;
        let ghost stems = seq_views(self.required_libs@);
        let ghost libl = lib_listing(tree@, t@.triplet);
        let ghost meta0 = seq_views(lib.cargo_metadata@);
        let ghost names0 = seq_views(lib.found_names@);
        let ghost flibs0 = seq_views(lib.found_libs@);
        let ghost fdlls0 = seq_views(lib.found_dlls@);
        let n = self.required_libs.len();
        let mut k: usize = 0;
        proof {
            assert(stems.take(0) =~= Seq::<Seq<char>>::empty());
            assert(link_lib_lines(stems.take(0), t@.strip_lib_prefix) =~= Seq::<Seq<char>>::empty());
            assert(link_names(stems.take(0), t@.strip_lib_prefix) =~= Seq::<Seq<char>>::empty());
            assert(lib_paths_of(stems.take(0), vcpkg_target@.lib_path, t@.lib_suffix)
                =~= Seq::<Seq<char>>::empty());
            assert(meta0 + Seq::<Seq<char>>::empty() =~= meta0);
            assert(names0 + Seq::<Seq<char>>::empty() =~= names0);
            assert(flibs0 + Seq::<Seq<char>>::empty() =~= flibs0);
        }
        while k < n
            invariant
                n == self.required_libs@.len(),
                stems == seq_views(self.required_libs@),
                libl == lib_listing(tree@, vcpkg_target@.target_triplet.triplet),
                t@ == vcpkg_target@.target_triplet,
                k <= n,
                forall|j: int|
                    0 <= j < k ==> libl.contains(
                        lib_file_of(#[trigger] stems[j], vcpkg_target@.target_triplet.lib_suffix),
                    ),
                seq_views(lib.cargo_metadata@) == meta0 + link_lib_lines(
                    stems.take(k as int),
                    vcpkg_target@.target_triplet.strip_lib_prefix,
                ),
                seq_views(lib.found_names@) == names0 + link_names(
                    stems.take(k as int),
                    vcpkg_target@.target_triplet.strip_lib_prefix,
                ),
                seq_views(lib.found_libs@) == flibs0 + lib_paths_of(
                    stems.take(k as int),
                    vcpkg_target@.lib_path,
                    vcpkg_target@.target_triplet.lib_suffix,
                ),
                seq_views(lib.found_dlls@) == fdlls0,
                lib@.is_static == old(lib)@.is_static,
                lib@.ports == old(lib)@.ports,
                lib@.include_paths == old(lib)@.include_paths,
                lib@.link_paths == old(lib)@.link_paths,
                lib@.dll_paths == old(lib)@.dll_paths,
                lib@.vcpkg_triplet == old(lib)@.vcpkg_triplet,
            decreases n - k,
        {
            proof {
                assert(stems[k as int] == self.required_libs@[k as int]@);
            }
            let required_lib: &String = &self.required_libs[k];
            let link_name = if t.strip_lib_prefix {
                strip_lib_prefix_str(required_lib.as_str())
            } else {
                required_lib.clone()
            };
            let mut line = String::from_str("cargo:rustc-link-lib=");
            crate::text::append_str(&mut line, link_name.as_str());
            let ghost meta_prev = seq_views(lib.cargo_metadata@);
            let ghost names_prev = seq_views(lib.found_names@);
            let ghost flibs_prev = seq_views(lib.found_libs@);
            lib.cargo_metadata.push(line);
            lib.found_names.push(link_name);
            let mut lib_file = required_lib.clone();
            crate::text::append_str(&mut lib_file, ".");
            crate::text::append_str(&mut lib_file, t.lib_suffix.as_str());
            proof {
                assert(lib_file@ == lib_file_of(stems[k as int], t@.lib_suffix));
            }
            let location = crate::text::join_path(vcpkg_target.lib_path.as_str(), lib_file.as_str());
            proof {
                assert(location@ == vcpkg_target@.lib_path + "/"@ + lib_file_of(
                    stems[k as int],
                    t@.lib_suffix,
                )) by {
                    assert(vcpkg_target@.lib_path.push('/') + lib_file@ =~= vcpkg_target@.lib_path
                        + "/"@ + lib_file@) by {
                        reveal_strlit("/");
                        assert("/"@ =~= seq!['/']);
                        assert(vcpkg_target@.lib_path.push('/') =~= vcpkg_target@.lib_path + "/"@);
                    }
                }
            }
            if !lib_listed(tree, t.triplet.as_str(), lib_file.as_str()) {
                proof {
                    lemma_first_missing_lib(stems, libl, t@.lib_suffix);
                    match first_missing_lib(stems, libl, t@.lib_suffix) {
                        Some(w) => {
                            assert(!(w < k) && !(k < w));
                        },
                        None => {
                            assert(libl.contains(lib_file_of(stems[k as int], t@.lib_suffix)));
                        },
                    }
                }
                return Err(Error::LibNotFound(location));
            }
            lib.found_libs.push(location);
            proof {
                assert(seq_views(lib.cargo_metadata@) =~= meta_prev.push(
                    "cargo:rustc-link-lib="@ + link_name_of(stems[k as int], t@.strip_lib_prefix),
                ));
                assert(link_lib_lines(stems.take(k + 1), t@.strip_lib_prefix) =~= link_lib_lines(
                    stems.take(k as int),
                    t@.strip_lib_prefix,
                ).push("cargo:rustc-link-lib="@ + link_name_of(stems[k as int], t@.strip_lib_prefix)));
                assert(seq_views(lib.found_names@) =~= names_prev.push(
                    link_name_of(stems[k as int], t@.strip_lib_prefix),
                ));
                assert(link_names(stems.take(k + 1), t@.strip_lib_prefix) =~= link_names(
                    stems.take(k as int),
                    t@.strip_lib_prefix,
                ).push(link_name_of(stems[k as int], t@.strip_lib_prefix)));
                assert(seq_views(lib.found_libs@) =~= flibs_prev.push(
                    vcpkg_target@.lib_path + "/"@ + lib_file_of(stems[k as int], t@.lib_suffix),
                ));
                assert(lib_paths_of(stems.take(k + 1), vcpkg_target@.lib_path, t@.lib_suffix)
                    =~= lib_paths_of(stems.take(k as int), vcpkg_target@.lib_path, t@.lib_suffix)
                    .push(vcpkg_target@.lib_path + "/"@ + lib_file_of(stems[k as int], t@.lib_suffix)));
            }
            k += 1;
        }
        proof {
            assert(stems.take(n as int) =~= stems);
            lemma_first_missing_lib(stems, libl, t@.lib_suffix);
            if first_missing_lib(stems, libl, t@.lib_suffix) is Some {
                let w = first_missing_lib(stems, libl, t@.lib_suffix)->Some_0;
                assert(libl.contains(lib_file_of(stems[w], t@.lib_suffix)));
            }
        }
        if !t.is_static {
            let ghost dstems = seq_views(self.required_dlls@);
            let ghost binl = bin_listing(tree@, t@.triplet);
            let ghost fdlls_base = seq_views(lib.found_dlls@);
            let dn = self.required_dlls.len();
            let mut d: usize = 0;
            proof {
                assert(dstems.take(0) =~= Seq::<Seq<char>>::empty());
                assert(dll_paths_of(dstems.take(0), vcpkg_target@.bin_path)
                    =~= Seq::<Seq<char>>::empty());
                assert(fdlls_base + Seq::<Seq<char>>::empty() =~= fdlls_base);
            }
            while d < dn
                invariant
                    dn == self.required_dlls@.len(),
                    dstems == seq_views(self.required_dlls@),
                    binl == bin_listing(tree@, vcpkg_target@.target_triplet.triplet),
                    t@ == vcpkg_target@.target_triplet,
                    !vcpkg_target@.target_triplet.is_static,
                    first_missing_lib(
                        seq_views(self.required_libs@),
                        lib_listing(tree@, vcpkg_target@.target_triplet.triplet),
                        vcpkg_target@.target_triplet.lib_suffix,
                    ) is None,
                    d <= dn,
                    forall|j: int|
                        0 <= j < d ==> binl.contains(dll_file_of(#[trigger] dstems[j])),
                    seq_views(lib.found_dlls@) == fdlls_base + dll_paths_of(
                        dstems.take(d as int),
                        vcpkg_target@.bin_path,
                    ),
                    seq_views(lib.cargo_metadata@) == seq_views(old(lib).cargo_metadata@)
                        + link_lib_lines(
                        seq_views(self.required_libs@),
                        vcpkg_target@.target_triplet.strip_lib_prefix,
                    ),
                    seq_views(lib.found_names@) == seq_views(old(lib).found_names@) + link_names(
                        seq_views(self.required_libs@),
                        vcpkg_target@.target_triplet.strip_lib_prefix,
                    ),
                    seq_views(lib.found_libs@) == seq_views(old(lib).found_libs@) + lib_paths_of(
                        seq_views(self.required_libs@),
                        vcpkg_target@.lib_path,
                        vcpkg_target@.target_triplet.lib_suffix,
                    ),
                    fdlls_base == seq_views(old(lib).found_dlls@),
                    lib@.is_static == old(lib)@.is_static,
                    lib@.ports == old(lib)@.ports,
                    lib@.include_paths == old(lib)@.include_paths,
                    lib@.link_paths == old(lib)@.link_paths,
                    lib@.dll_paths == old(lib)@.dll_paths,
                    lib@.vcpkg_triplet == old(lib)@.vcpkg_triplet,
                decreases dn - d,
            {
                proof {
                    assert(dstems[d as int] == self.required_dlls@[d as int]@);
                }
                let required_dll: &String = &self.required_dlls[d];
                let mut dll_file = required_dll.clone();
                crate::text::append_str(&mut dll_file, ".dll");
                proof {
                    assert(dll_file@ == dll_file_of(dstems[d as int]));
                }
                let location = crate::text::join_path(
                    vcpkg_target.bin_path.as_str(),
                    dll_file.as_str(),
                );
                proof {
                    assert(location@ == vcpkg_target@.bin_path + "/"@ + dll_file_of(
                        dstems[d as int],
                    )) by {
                        reveal_strlit("/");
                        assert("/"@ =~= seq!['/']);
                        assert(vcpkg_target@.bin_path.push('/') =~= vcpkg_target@.bin_path + "/"@);
                    }
                }
                if !bin_listed(tree, t.triplet.as_str(), dll_file.as_str()) {
                    proof {
                        lemma_first_missing_dll(dstems, binl);
                        match first_missing_dll(dstems, binl) {
                            Some(w) => {
                                assert(!(w < d) && !(d < w));
                            },
                            None => {
                                assert(binl.contains(dll_file_of(dstems[d as int])));
                            },
                        }
                    }
                    return Err(Error::LibNotFound(location));
                }
                let ghost fdlls_prev = seq_views(lib.found_dlls@);
                lib.found_dlls.push(location);
                proof {
                    assert(seq_views(lib.found_dlls@) =~= fdlls_prev.push(
                        vcpkg_target@.bin_path + "/"@ + dll_file_of(dstems[d as int]),
                    ));
                    assert(dll_paths_of(dstems.take(d + 1), vcpkg_target@.bin_path)
                        =~= dll_paths_of(dstems.take(d as int), vcpkg_target@.bin_path).push(
                        vcpkg_target@.bin_path + "/"@ + dll_file_of(dstems[d as int]),
                    ));
                }
                d += 1;
            }
            proof {
                assert(dstems.take(dn as int) =~= dstems);
                lemma_first_missing_dll(dstems, binl);
                if first_missing_dll(dstems, binl) is Some {
                    let w = first_missing_dll(dstems, binl)->Some_0;
                    assert(binl.contains(dll_file_of(dstems[w])));
                }
            }
        }
        Ok(())
    }

    /// The default configuration: metadata is emitted, shared libraries are
    /// copied, nothing else is overridden.
    pub fn new() -> (r: Config)
        ensures
            r@ == (ConfigView {
                cargo_metadata: true,
                emit_includes: false,
                required_libs: Seq::empty(),
                required_dlls: Seq::empty(),
                copy_dlls: true,
                vcpkg_root: None,
                target: None,
            }),
    {
        let r = Config {
            cargo_metadata: true,
            emit_includes: false,
            required_libs: Vec::new(),
            required_dlls: Vec::new(),
            copy_dlls: true,
            vcpkg_root: None,
            target: None,
        };
        proof {
            assert(seq_views(r.required_libs@) =~= Seq::<Seq<char>>::empty());
            assert(seq_views(r.required_dlls@) =~= Seq::<Seq<char>>::empty());
        }
        r
    }

    /// Define whether metadata should be emitted for the build tool.
    /// Defaults to `true`.
    pub fn cargo_metadata(self, cargo_metadata: bool) -> (r: Config)
        ensures
            r@ == (ConfigView { cargo_metadata, ..self@ }),
    {
        Config { cargo_metadata, ..self }
    }

    /// Define whether include-path metadata should be emitted. Defaults to
    /// `false`.
    pub fn emit_includes(self, emit_includes: bool) -> (r: Config)
        ensures
            r@ == (ConfigView { emit_includes, ..self@ }),
    {
        Config { emit_includes, ..self }
    }

    /// Should shared libraries be copied to the build output directory?
    /// Defaults to `true`.
    pub fn copy_dlls(self, copy_dlls: bool) -> (r: Config)
        ensures
            r@ == (ConfigView { copy_dlls, ..self@ }),
    {
        Config { copy_dlls, ..self }
    }

    /// Define which path the caller should use as the install tree root,
    /// overriding environment-driven discovery.
    pub fn vcpkg_root(self, vcpkg_root: String) -> (r: Config)
        ensures
            r@ == (ConfigView { vcpkg_root: Some(vcpkg_root@), ..self@ }),
    {
        Config { vcpkg_root: Some(vcpkg_root), ..self }
    }

    /// Specify the target triplet. When none is specified, the triplet is
    /// inferred from the environment's target string.
    pub fn target_triplet(self, triplet: &str) -> (r: Config)
        ensures
            r@ == (ConfigView { target: Some(spec_triplet_of(triplet@)), ..self@ }),
    {
        Config { target: Some(TargetTriplet::from_name(triplet)), ..self }
    }

    /// Override the name of the library to look for if it differs from the
    /// package name. May be called more than once; all the named libraries
    /// must be found for the probe to succeed.
    pub fn lib_name(self, lib_stem: &str) -> (r: Config)
        ensures
            r@ == (ConfigView {
                required_libs: self@.required_libs.push(lib_stem@),
                required_dlls: self@.required_dlls.push(lib_stem@),
                ..self@
            }),
    {
        let mut c = self;
        c.required_libs.push(String::from_str(lib_stem));
        c.required_dlls.push(String::from_str(lib_stem));
        proof {
            assert(seq_views(c.required_libs@) =~= seq_views(self.required_libs@).push(lib_stem@));
            assert(seq_views(c.required_dlls@) =~= seq_views(self.required_dlls@).push(lib_stem@));
        }
        c
    }

    /// Override the names of the static and shared libraries to look for if
    /// they differ from the package name. May be called more than once.
    pub fn lib_names(self, lib_stem: &str, dll_stem: &str) -> (r: Config)
        ensures
            r@ == (ConfigView {
                required_libs: self@.required_libs.push(lib_stem@),
                required_dlls: self@.required_dlls.push(dll_stem@),
                ..self@
            }),
    {
        let mut c = self;
        c.required_libs.push(String::from_str(lib_stem));
        c.required_dlls.push(String::from_str(dll_stem));
        proof {
            assert(seq_views(c.required_libs@) =~= seq_views(self.required_libs@).push(lib_stem@));
            assert(seq_views(c.required_dlls@) =~= seq_views(self.required_dlls@).push(dll_stem@));
        }
        c
    }

    /// Finds the package `port_name` in the described install tree under the
    /// sampled environment. Fatal checks run in priority order: disable
    /// switches, target support, tree validity, status database, package
    /// existence, the dynamic-linkage opt-in, then per-file existence — so
    /// the caller receives the earliest, most actionable failure. On success the result names
    /// every verified library, the contributing ports in link order and the
    /// directive lines to emit; the caller prints them and performs the
    /// shared-library copies.
    pub fn find_package(&mut self, port_name: &str, env: &EnvSnapshot, tree: &InstallTree) -> (r:
        Result<Library, Error>)
        ensures
            ({
                let cfg0 = old(self)@;
                match disabled_switch(env@, port_name@) {
                    Some(sw) => match r {
                        Ok(_) => false,
                        Err(e) => match e {
                            Error::DisabledByEnv(n) => n@ == sw,
                            _ => false,
                        },
                    },
                    None => match chosen_triplet(cfg0, env@) {
                        None => r == Err::<Library, Error>(Error::NotMSVC),
                        Some(trip) => if !tree.has_root_marker {
                            match r {
                                Ok(_) => false,
                                Err(e) => match e {
                                    Error::VcpkgNotFound(m) => m@ == "Could not find Vcpkg root at "@
                                        + tree@.root + "/.vcpkg-root"@,
                                    _ => false,
                                },
                            }
                        } else {
                            let layout = crate::vcpkg_target::spec_target_layout(tree@.root, trip);
                            if cfg0.required_libs.len() > 0 {
                                gate_and_emit_outcome(
                                    cfg0,
                                    env@,
                                    tree@,
                                    trip,
                                    layout,
                                    Seq::empty(),
                                    cfg0.required_libs,
                                    cfg0.required_dlls,
                                    r,
                                )
                            } else if !tree.has_updates_dir {
                                match r {
                                    Ok(_) => false,
                                    Err(e) => match e {
                                        Error::VcpkgInstallation(m) => m@
                                            == "could not read status file updates dir"@,
                                        _ => false,
                                    },
                                }
                            } else {
                                match crate::status::spec_load_ports(tree@, trip) {
                                    Err(fname) => match r {
                                        Ok(_) => false,
                                        Err(e) => match e {
                                            Error::VcpkgInstallation(m) => m@
                                                == "Could not open port manifest file "@
                                                + layout.status_path + "/info/"@ + fname,
                                            _ => false,
                                        },
                                    },
                                    Ok(db) => if crate::status::port_lookup(
                                        db,
                                        port_name@,
                                    ) is None {
                                        match r {
                                            Ok(_) => false,
                                            Err(e) => match e {
                                                Error::LibNotFound(m) => m@ == "package "@
                                                    + port_name@
                                                    + " is not installed for vcpkg triplet "@
                                                    + trip.triplet,
                                                _ => false,
                                            },
                                        }
                                    } else {
                                        exists|order: Seq<Seq<char>>|
                                            {
                                                &&& #[trigger] crate::graph::is_resolve_order(
                                                    db,
                                                    port_name@,
                                                    order,
                                                )
                                                &&& gate_and_emit_outcome(
                                                    cfg0,
                                                    env@,
                                                    tree@,
                                                    trip,
                                                    layout,
                                                    order,
                                                    collect_lib_stems(db, order),
                                                    cfg0.required_dlls + collect_dll_stems(
                                                        db,
                                                        order,
                                                    ),
                                                    r,
                                                )
                                            }
                                    },
                                }
                            }
                        },
                    },
                }
            }),
            final(self)@.cargo_metadata == old(self)@.cargo_metadata,
            final(self)@.emit_includes == old(self)@.emit_includes,
            final(self)@.copy_dlls == old(self)@.copy_dlls,
            final(self)@.vcpkg_root == old(self)@.vcpkg_root,
    {
        match check_disabled(port_name, env) {
            Some(e) => {
                return Err(e);
            },
            None => {},
        }
        let target_triplet = match self.get_target_triplet(env) {
            Ok(t) => t,
            Err(e) => {
                return Err(e);
            },
        };
        let vcpkg_target = match crate::find_vcpkg_target(tree, &target_triplet) {
            Ok(v) => v,
            Err(e) => {
                return Err(e);
            },
        };
        let mut required_port_order: Vec<String> = Vec::new();
        let ghost mut dbv: Seq<crate::status::PortEntryView> = Seq::empty();
        proof {
            assert(seq_views(required_port_order@) =~= Seq::<Seq<char>>::empty());
        }
        let from_ports = self.required_libs.is_empty();
        if from_ports {
            let db = match crate::status::load_ports(tree, &vcpkg_target) {
                Ok(d) => d,
                Err(e) => {
                    return Err(e);
                },
            };
            proof {
                dbv = db@;
            }
            match db.get(port_name) {
                Some(_) => {},
                None => {
                    let mut msg = String::from_str("package ");
                    crate::text::append_str(&mut msg, port_name);
                    crate::text::append_str(&mut msg, " is not installed for vcpkg triplet ");
                    crate::text::append_str(&mut msg, vcpkg_target.target_triplet.triplet.as_str());
                    return Err(Error::LibNotFound(msg));
                },
            }
            required_port_order = crate::graph::resolve_port_graph(&db, port_name);
            self.collect_required(&db, &required_port_order);
            proof {
                assert(seq_views(self.required_libs@) =~= collect_lib_stems(
                    dbv,
                    seq_views(required_port_order@),
                ));
                assert(seq_views(self.required_dlls@) == old(self)@.required_dlls
                    + collect_dll_stems(dbv, seq_views(required_port_order@)));
            }
        }
        if !vcpkg_target.target_triplet.is_static && !env.is_set("VCPKGRS_DYNAMIC") {
            return Err(Error::RequiredEnvMissing(String::from_str("VCPKGRS_DYNAMIC")));
        }
        self.assemble_library(env, tree, &vcpkg_target, required_port_order)
    }

    /// Builds the result for the already-selected target: the base directive
    /// lines and search paths, the contributing port order, one link
    /// directive and existence check per required library, and the
    /// output-directory lines when shared libraries are to be copied.
    fn assemble_library(
        &self,
        env: &EnvSnapshot,
        tree: &InstallTree,
        vcpkg_target: &VcpkgTarget,
        required_port_order: Vec<String>,
    ) -> (r: Result<Library, Error>)
        requires
            vcpkg_target@.target_triplet.is_static || env_set(env@, "VCPKGRS_DYNAMIC"@),
        ensures
            gate_and_emit_outcome(
                self@,
                env@,
                tree@,
                vcpkg_target@.target_triplet,
                vcpkg_target@,
                seq_views(required_port_order@),
                self@.required_libs,
                self@.required_dlls,
                r,
            ),
    {
        let ghost trip = vcpkg_target@.target_triplet;
        let ghost oviews = seq_views(required_port_order@);
        let mut lib = Library::new(
            vcpkg_target.target_triplet.is_static,
            vcpkg_target.target_triplet.triplet.as_str(),
        );
        if self.emit_includes {
            let mut line = String::from_str("cargo:include=");
            crate::text::append_str(&mut line, vcpkg_target.include_path.as_str());
            lib.cargo_metadata.push(line);
        }
        lib.include_paths.push(vcpkg_target.include_path.clone());
        let mut search_line = String::from_str("cargo:rustc-link-search=native=");
        crate::text::append_str(&mut search_line, vcpkg_target.lib_path.as_str());
        lib.cargo_metadata.push(search_line);
        lib.link_paths.push(vcpkg_target.lib_path.clone());
        if !vcpkg_target.target_triplet.is_static {
            let mut bin_line = String::from_str("cargo:rustc-link-search=native=");
            crate::text::append_str(&mut bin_line, vcpkg_target.bin_path.as_str());
            lib.cargo_metadata.push(bin_line);
            lib.dll_paths.push(vcpkg_target.bin_path.clone());
        }
        lib.ports = required_port_order;
        proof {
            assert(seq_views(lib.cargo_metadata@) =~= base_metadata(
                self@.emit_includes,
                trip,
                vcpkg_target@,
            ));
            assert(seq_views(lib.include_paths@) =~= seq![vcpkg_target@.include_path]);
            assert(seq_views(lib.link_paths@) =~= seq![vcpkg_target@.lib_path]);
            if trip.is_static {
                assert(seq_views(lib.dll_paths@) =~= Seq::<Seq<char>>::empty());
            } else {
                assert(seq_views(lib.dll_paths@) =~= seq![vcpkg_target@.bin_path]);
            }
            assert(seq_views(lib.found_names@) =~= Seq::<Seq<char>>::empty());
            assert(seq_views(lib.found_libs@) =~= Seq::<Seq<char>>::empty());
            assert(seq_views(lib.found_dlls@) =~= Seq::<Seq<char>>::empty());
            assert(lib@.ports == oviews);
        }
        let ghost before_emit = lib@;
        match self.emit_libs(&mut lib, vcpkg_target, tree) {
            Ok(_) => {},
            Err(e) => {
                return Err(e);
            },
        }
        proof {
            assert(seq_views(lib.cargo_metadata@) == base_metadata(
                self@.emit_includes,
                trip,
                vcpkg_target@,
            ) + link_lib_lines(self@.required_libs, trip.strip_lib_prefix));
        }
        if self.copy_dlls {
            match env.get("OUT_DIR") {
                None => {
                    return Err(Error::LibNotFound(String::from_str("Unable to get OUT_DIR")));
                },
                Some(out_dir) => {
                    if lib.found_dlls.len() > 0 {
                        let ghost meta_mid = seq_views(lib.cargo_metadata@);
                        let mut l1 = String::from_str("cargo:rustc-link-search=native=");
                        crate::text::append_str(&mut l1, out_dir.as_str());
                        lib.cargo_metadata.push(l1);
                        let mut l2 = String::from_str("cargo:rustc-link-search=");
                        crate::text::append_str(&mut l2, out_dir.as_str());
                        lib.cargo_metadata.push(l2);
                        proof {
                            assert(seq_views(lib.cargo_metadata@) =~= meta_mid + out_dir_lines(
                                out_dir@,
                            ));
                        }
                    }
                },
            }
        }
        proof {
            let libs = self@.required_libs;
            let dlls = self@.required_dlls;
            let has_dlls = !trip.is_static && dlls.len() > 0;
            if !(self@.copy_dlls && has_dlls) {
                assert(seq_views(lib.cargo_metadata@) =~= base_metadata(
                    self@.emit_includes,
                    trip,
                    vcpkg_target@,
                ) + link_lib_lines(libs, trip.strip_lib_prefix) + Seq::<Seq<char>>::empty());
            }
            assert(lib@ == expected_library(
                self@.emit_includes,
                trip,
                vcpkg_target@,
                oviews,
                libs,
                dlls,
                if self@.copy_dlls && has_dlls {
                    out_dir_lines(env_lookup(env@, "OUT_DIR"@)->Some_0)
                } else {
                    Seq::<Seq<char>>::empty()
                },
            ));
        }
        Ok(lib)
    }

    /// Finds the library `port_name` in the described install tree, without
    /// consulting the status database: the port's own name stands for its
    /// library and shared-library stems unless overridden. Kept for callers
    /// of the older interface; `find_package` resolves dependencies too.
    pub fn probe(&mut self, port_name: &str, env: &EnvSnapshot, tree: &InstallTree) -> (r: Result<
        Library,
        Error,
    >)
        ensures
            ({
                let cfg0 = old(self)@;
                match disabled_switch(env@, port_name@) {
                    Some(sw) => match r {
                        Ok(_) => false,
                        Err(e) => match e {
                            Error::DisabledByEnv(n) => n@ == sw,
                            _ => false,
                        },
                    },
                    None => match chosen_triplet(cfg0, env@) {
                        None => r == Err::<Library, Error>(Error::NotMSVC),
                        Some(trip) => {
                            let libs = if cfg0.required_libs.len() == 0 {
                                cfg0.required_libs.push(port_name@)
                            } else {
                                cfg0.required_libs
                            };
                            let dlls = if cfg0.required_libs.len() == 0 {
                                cfg0.required_dlls.push(port_name@)
                            } else {
                                cfg0.required_dlls
                            };
                            if !tree.has_root_marker {
                                match r {
                                    Ok(_) => false,
                                    Err(e) => match e {
                                        Error::VcpkgNotFound(m) => m@
                                            == "Could not find Vcpkg root at "@ + tree@.root
                                            + "/.vcpkg-root"@,
                                        _ => false,
                                    },
                                }
                            } else {
                                gate_and_emit_outcome(
                                    cfg0,
                                    env@,
                                    tree@,
                                    trip,
                                    crate::vcpkg_target::spec_target_layout(tree@.root, trip),
                                    Seq::empty(),
                                    libs,
                                    dlls,
                                    r,
                                )
                            }
                        },
                    },
                }
            }),
            final(self)@.cargo_metadata == old(self)@.cargo_metadata,
            final(self)@.emit_includes == old(self)@.emit_includes,
            final(self)@.copy_dlls == old(self)@.copy_dlls,
            final(self)@.vcpkg_root == old(self)@.vcpkg_root,
    {
        match check_disabled(port_name, env) {
            Some(e) => {
                return Err(e);
            },
            None => {},
        }
        let target_triplet = match self.get_target_triplet(env) {
            Ok(t) => t,
            Err(e) => {
                return Err(e);
            },
        };
        if self.required_libs.is_empty() {
            let ghost libs_prev = seq_views(self.required_libs@);
            let ghost dlls_prev = seq_views(self.required_dlls@);
            self.required_libs.push(String::from_str(port_name));
            self.required_dlls.push(String::from_str(port_name));
            proof {
                assert(seq_views(self.required_libs@) =~= libs_prev.push(port_name@));
                assert(seq_views(self.required_dlls@) =~= dlls_prev.push(port_name@));
            }
        }
        let vcpkg_target = match crate::find_vcpkg_target(tree, &target_triplet) {
            Ok(v) => v,
            Err(e) => {
                return Err(e);
            },
        };
        if !vcpkg_target.target_triplet.is_static && !env.is_set("VCPKGRS_DYNAMIC") {
            return Err(Error::RequiredEnvMissing(String::from_str("VCPKGRS_DYNAMIC")));
        }
        let empty_order: Vec<String> = Vec::new();
        proof {
            assert(seq_views(empty_order@) =~= Seq::<Seq<char>>::empty());
        }
        self.assemble_library(env, tree, &vcpkg_target, empty_order)
    }

    /// Selects the target triplet, caching the choice: an explicit override
    /// wins, then a triplet named in the environment, then inference from the
    /// compiler target string; an unsupported target is rejected.
    pub fn get_target_triplet(&mut self, env: &EnvSnapshot) -> (r: Result<TargetTriplet, Error>)
        ensures
            match chosen_triplet(old(self)@, env@) {
                Some(t) => match r {
                    Ok(tt) => tt@ == t && final(self)@ == (ConfigView {
                        target: Some(t),
                        ..old(self)@
                    }),
                    Err(_) => false,
                },
                None => r == Err::<TargetTriplet, Error>(Error::NotMSVC) && final(self)@ == old(
                    self,
                )@,
            },
{
        match &self.target {
            Some(t) => {
                let tt = crate::target_triplet::clone_triplet(t);
                return Ok(tt);
            },
            None => {},
        }
        let picked: Result<TargetTriplet, Error> = match env.get("VCPKGRS_TRIPLET") {
            Some(triplet_str) => Ok(TargetTriplet::from_name(triplet_str.as_str())),
            None => {
                proof {
                    reveal_strlit("");
                    assert(""@ =~= Seq::<char>::empty());
                }
                let target: &str = match env.get("TARGET") {
                    Some(t) => t.as_str(),
                    None => "",
                };
                let is_definitely_dynamic = env.is_set("VCPKGRS_DYNAMIC");
                let is_static_crt = match env.get("CARGO_CFG_TARGET_FEATURE") {
                    Some(f) => {
                        proof {
                            reveal_strlit("crt-static");
                        }
                        crate::text::contains_sub(f.as_str(), "crt-static")
                    },
                    None => false,
                };
                crate::target_triplet::msvc_target(target, is_definitely_dynamic, is_static_crt)
            },
        };
        match picked {
            Ok(t) => {
                let copy = crate::target_triplet::clone_triplet(&t);
                self.target = Some(t);
                Ok(copy)
            },
            Err(e) => Err(e),
        }
    }
}

/// The stems of a sequence of library file names.
pub open spec fn stems_of(xs: Seq<Seq<char>>) -> Seq<Seq<char>> {
    xs.map_values(|x: Seq<char>| crate::text::spec_file_stem(x))
}

/// The static/import library stems the ordered ports contribute, in port
/// order; each is the file stem of a library named by the port's manifest.
pub open spec fn collect_lib_stems(
    db: Seq<crate::status::PortEntryView>,
    order: Seq<Seq<char>>,
) -> Seq<Seq<char>>
    decreases order.len(),
{
    if order.len() == 0 {
        Seq::empty()
    } else {
        collect_lib_stems(db, order.drop_last()) + (match crate::status::port_lookup(
            db,
            order.last(),
        ) {
            Some(p) => stems_of(p.libs),
            None => Seq::empty(),
        })
    }
}

/// The shared library stems the ordered ports contribute, in port order.
pub open spec fn collect_dll_stems(
    db: Seq<crate::status::PortEntryView>,
    order: Seq<Seq<char>>,
) -> Seq<Seq<char>>
    decreases order.len(),
{
    if order.len() == 0 {
        Seq::empty()
    } else {
        collect_dll_stems(db, order.drop_last()) + (match crate::status::port_lookup(
            db,
            order.last(),
        ) {
            Some(p) => stems_of(p.dlls),
            None => Seq::empty(),
        })
    }
}

/// The outcome of a probe's stages from the dynamic-linkage gate on, given
/// the contributing port order and the required library stems: an explicit
/// opt-in is demanded before linking dynamically, then every required library
/// file and (for a dynamic target) every shared library file must exist, the
/// first missing one fatal with its full path; copying shared libraries
/// demands a build output directory; and on success the probe returns exactly
/// the expected result value.
pub open spec fn gate_and_emit_outcome(
    cfg: ConfigView,
    env: Seq<EnvVarView>,
    tree: InstallTreeView,
    trip: TripletView,
    layout: crate::vcpkg_target::VcpkgTargetView,
    ports: Seq<Seq<char>>,
    libs: Seq<Seq<char>>,
    dlls: Seq<Seq<char>>,
    r: Result<Library, Error>,
) -> bool {
    if !trip.is_static && !env_set(env, "VCPKGRS_DYNAMIC"@) {
        match r {
            Ok(_) => false,
            Err(e) => match e {
                Error::RequiredEnvMissing(m) => m@ == "VCPKGRS_DYNAMIC"@,
                _ => false,
            },
        }
    } else {
        match first_missing_lib(libs, lib_listing(tree, trip.triplet), trip.lib_suffix) {
            Some(i) => match r {
                Ok(_) => false,
                Err(e) => match e {
                    Error::LibNotFound(m) => m@ == layout.lib_path + "/"@ + lib_file_of(
                        libs[i],
                        trip.lib_suffix,
                    ),
                    _ => false,
                },
            },
            None => if !trip.is_static && first_missing_dll(
                dlls,
                bin_listing(tree, trip.triplet),
            ) is Some {
                let i = first_missing_dll(dlls, bin_listing(tree, trip.triplet))->Some_0;
                match r {
                    Ok(_) => false,
                    Err(e) => match e {
                        Error::LibNotFound(m) => m@ == layout.bin_path + "/"@ + dll_file_of(
                            dlls[i],
                        ),
                        _ => false,
                    },
                }
            } else if cfg.copy_dlls && env_lookup(env, "OUT_DIR"@) is None {
                match r {
                    Ok(_) => false,
                    Err(e) => match e {
                        Error::LibNotFound(m) => m@ == "Unable to get OUT_DIR"@,
                        _ => false,
                    },
                }
            } else {
                let has_dlls = !trip.is_static && dlls.len() > 0;
                let extra = if cfg.copy_dlls && has_dlls {
                    out_dir_lines(env_lookup(env, "OUT_DIR"@)->Some_0)
                } else {
                    Seq::<Seq<char>>::empty()
                };
                match r {
                    Ok(lib) => lib@ == expected_library(
                        cfg.emit_includes,
                        trip,
                        layout,
                        ports,
                        libs,
                        dlls,
                        extra,
                    ),
                    Err(_) => false,
                }
            },
        }
    }
}

impl Config {
    /// Fills the required library lists from the ordered ports' manifests.
    fn collect_required(&mut self, db: &crate::status::PortsDb, order: &Vec<String>)
        ensures
            final(self)@ == (ConfigView {
                required_libs: old(self)@.required_libs + collect_lib_stems(
                    db@,
                    seq_views(order@),
                ),
                required_dlls: old(self)@.required_dlls + collect_dll_stems(
                    db@,
                    seq_views(order@),
                ),
                ..old(self)@
            }),
    {
        let ghost oviews = seq_views(order@);
        let ghost base_libs = seq_views(self.required_libs@);
        let ghost base_dlls = seq_views(self.required_dlls@);
        let on = order.len();
        let mut k: usize = 0;
        proof {
            assert(oviews.take(0) =~= Seq::<Seq<char>>::empty());
            assert(base_libs + collect_lib_stems(db@, oviews.take(0)) =~= base_libs);
            assert(base_dlls + collect_dll_stems(db@, oviews.take(0)) =~= base_dlls);
        }
        while k < on
            invariant
                on == order@.len(),
                oviews == seq_views(order@),
                k <= on,
                seq_views(self.required_libs@) == base_libs + collect_lib_stems(
                    db@,
                    oviews.take(k as int),
                ),
                seq_views(self.required_dlls@) == base_dlls + collect_dll_stems(
                    db@,
                    oviews.take(k as int),
                ),
                self.cargo_metadata == old(self).cargo_metadata,
                self.emit_includes == old(self).emit_includes,
                self.copy_dlls == old(self).copy_dlls,
                self@.vcpkg_root == old(self)@.vcpkg_root,
                self@.target == old(self)@.target,
            decreases on - k,
        {
            proof {
                assert(oviews.take(k + 1).drop_last() =~= oviews.take(k as int));
                assert(oviews.take(k + 1).last() == oviews[k as int]);
                assert(oviews[k as int] == order@[k as int]@);
            }
            match db.get(order[k].as_str()) {
                Some(port) => {
                    let ghost lv = seq_views(port.libs@);
                    let ghost libs_before = seq_views(self.required_libs@);
                    let ln = port.libs.len();
                    let mut j: usize = 0;
                    proof {
                        assert(stems_of(lv.take(0)) =~= Seq::<Seq<char>>::empty());
                        assert(libs_before + stems_of(lv.take(0)) =~= libs_before);
                    }
                    let ghost dlls_frame = seq_views(self.required_dlls@);
                    while j < ln
                        invariant
                            ln == port.libs@.len(),
                            lv == seq_views(port.libs@),
                            j <= ln,
                            seq_views(self.required_libs@) == libs_before + stems_of(
                                lv.take(j as int),
                            ),
                            seq_views(self.required_dlls@) == dlls_frame,
                            self.cargo_metadata == old(self).cargo_metadata,
                            self.emit_includes == old(self).emit_includes,
                            self.copy_dlls == old(self).copy_dlls,
                            self@.vcpkg_root == old(self)@.vcpkg_root,
                            self@.target == old(self)@.target,
                        decreases ln - j,
                    {
                        let ghost prev = seq_views(self.required_libs@);
                        let stem = crate::text::file_stem_of(port.libs[j].as_str());
                        self.required_libs.push(stem);
                        proof {
                            assert(seq_views(self.required_libs@) =~= prev.push(
                                crate::text::spec_file_stem(lv[j as int]),
                            ));
                            assert(stems_of(lv.take(j + 1)) =~= stems_of(lv.take(j as int)).push(
                                crate::text::spec_file_stem(lv[j as int]),
                            ));
                        }
                        j += 1;
                    }
                    proof {
                        assert(lv.take(ln as int) =~= lv);
                    }
                    let ghost dv = seq_views(port.dlls@);
                    let ghost dlls_before = seq_views(self.required_dlls@);
                    let pdn = port.dlls.len();
                    let mut j2: usize = 0;
                    proof {
                        assert(stems_of(dv.take(0)) =~= Seq::<Seq<char>>::empty());
                        assert(dlls_before + stems_of(dv.take(0)) =~= dlls_before);
                    }
                    let ghost libs_frame = seq_views(self.required_libs@);
                    while j2 < pdn
                        invariant
                            pdn == port.dlls@.len(),
                            dv == seq_views(port.dlls@),
                            j2 <= pdn,
                            seq_views(self.required_dlls@) == dlls_before + stems_of(
                                dv.take(j2 as int),
                            ),
                            seq_views(self.required_libs@) == libs_frame,
                            self.cargo_metadata == old(self).cargo_metadata,
                            self.emit_includes == old(self).emit_includes,
                            self.copy_dlls == old(self).copy_dlls,
                            self@.vcpkg_root == old(self)@.vcpkg_root,
                            self@.target == old(self)@.target,
                        decreases pdn - j2,
                    {
                        let ghost prev = seq_views(self.required_dlls@);
                        let stem = crate::text::file_stem_of(port.dlls[j2].as_str());
                        self.required_dlls.push(stem);
                        proof {
                            assert(seq_views(self.required_dlls@) =~= prev.push(
                                crate::text::spec_file_stem(dv[j2 as int]),
                            ));
                            assert(stems_of(dv.take(j2 + 1)) =~= stems_of(dv.take(j2 as int)).push(
                                crate::text::spec_file_stem(dv[j2 as int]),
                            ));
                        }
                        j2 += 1;
                    }
                    proof {
                        assert(dv.take(pdn as int) =~= dv);
                    }
                },
                None => {},
            }
            k += 1;
        }
        proof {
            assert(oviews.take(on as int) =~= oviews);
        }
    }
}

} // verus!
