//! Build-time helper that locates packages installed by a native package
//! manager ("ports"): it resolves a port's transitive dependency set from the
//! manager's status database, computes a link order for the libraries those
//! ports provide, refines that order with per-library metadata files, and
//! assembles the linker directives a build script emits.
//!
//! All decisions are made over plain values handed in by the caller: the
//! environment is sampled into a snapshot and the install tree's relevant
//! files are read into a plain-value description before any function here
//! runs, so the whole pipeline is deterministic and verified.
use vstd::prelude::*;

mod config;
mod env_snapshot;
mod error;
mod graph;
mod install_tree;
mod library;
mod pc_file;
mod port;
mod status;
mod target_triplet;
mod text;
mod vcpkg_target;

pub use config::Config;
pub use config::check_disabled;
pub use env_snapshot::EnvSnapshot;
pub use error::Error;
pub use install_tree::InstallTree;
pub use install_tree::NamedFile;
pub use install_tree::PcDir;
pub use install_tree::PcText;
pub use install_tree::TripletDir;
pub use graph::resolve_port_graph;
pub use library::Library;
pub use pc_file::PcFile;
pub use pc_file::PcFiles;
pub use port::Port;
pub use status::Paragraph;
pub use status::PortsDb;
pub use status::load_port_manifest;
pub use status::load_ports;
pub use status::load_status_lines;
pub use status::skipped_status_records;
pub use status::sort_keyed_paras;
pub use target_triplet::TargetTriplet;
pub use target_triplet::msvc_target;
pub use vcpkg_target::VcpkgTarget;

verus! {

/// The environment-variable spelling of a package name: ASCII letters
/// uppercased and `-` replaced by `_`.
pub open spec fn spec_envify(s: Seq<char>) -> Seq<char> {
    s.map_values(|c: char| crate::text::env_char(c))
}

/// Derives the environment-variable spelling of a package name.
pub fn envify(name: &str) -> (r: String)
    ensures
        r@ == spec_envify(name@),
{
    let n = name.unicode_len();
    let mut out = String::new();
    let mut i: usize = 0;
    proof {
        assert(out@ =~= spec_envify(name@.take(0)));
    }
    while i < n
        invariant
            n == name@.len(),
            i <= n,
            out@ == spec_envify(name@.take(i as int)),
        decreases n - i,
    {
        let c = crate::text::to_env_char(name.get_char(i));
        crate::text::push_char(&mut out, c);
        proof {
            assert(out@ =~= spec_envify(name@.take(i + 1)));
        }
        i += 1;
    }
    proof {
        assert(name@.take(n as int) =~= name@);
    }
    out
}

/// Lays the chosen triplet out under the given tree, after checking that the
/// tree's root carries the sentinel marker file; a root without it is not a
/// valid install tree.
pub fn find_vcpkg_target(tree: &InstallTree, target_triplet: &TargetTriplet) -> (r: Result<
    VcpkgTarget,
    Error,
>)
    ensures
        match r {
            Ok(t) => tree.has_root_marker && t@ == crate::vcpkg_target::spec_target_layout(
                tree@.root,
                target_triplet@,
            ),
            Err(e) => !tree.has_root_marker && (match e {
                Error::VcpkgNotFound(m) => m@ == "Could not find Vcpkg root at "@ + tree@.root
                    + "/.vcpkg-root"@,
                _ => false,
            }),
        },
{
    if !tree.has_root_marker {
        let mut msg = String::from_str("Could not find Vcpkg root at ");
        crate::text::append_str(&mut msg, tree.root.as_str());
        crate::text::append_str(&mut msg, "/.vcpkg-root");
        return Err(Error::VcpkgNotFound(msg));
    }
    let triplet = crate::target_triplet::clone_triplet(target_triplet);
    Ok(VcpkgTarget::new(tree.root.as_str(), triplet))
}

/// A path-component separator; both kinds are taken, as the parsed project
/// files hold Windows paths.
pub open spec fn is_path_sep(c: char) -> bool {
    c == '/' || c == '\\'
}

pub open spec fn strip_trailing_seps(s: Seq<char>) -> Seq<char>
    decreases s.len(),
{
    if s.len() > 0 && is_path_sep(s[s.len() - 1]) {
        strip_trailing_seps(s.drop_last())
    } else {
        s
    }
}

pub open spec fn last_sep_index(s: Seq<char>) -> Option<int>
    decreases s.len(),
{
    if s.len() == 0 {
        None
    } else if is_path_sep(s[s.len() - 1]) {
        Some(s.len() - 1)
    } else {
        last_sep_index(s.drop_last())
    }
}

/// A path with its last component removed: trailing separators are dropped,
/// then the text from the last separator on; a lone leading separator stays,
/// and a path with nothing left to remove yields `None`. A drive or root
/// prefix is not modeled apart: a path holding at least as many components as
/// are popped comes out as the plain parent string.
pub open spec fn spec_pop_component(s: Seq<char>) -> Option<Seq<char>> {
    let t = strip_trailing_seps(s);
    if t.len() == 0 {
        None
    } else {
        match last_sep_index(t) {
            Some(i) => Some(
                if i == 0 {
                    t.subrange(0, 1)
                } else {
                    t.subrange(0, i)
                },
            ),
            None => Some(Seq::empty()),
        }
    }
}

pub open spec fn spec_pop_n(s: Seq<char>, n: nat) -> Option<Seq<char>>
    decreases n,
{
    if n == 0 {
        Some(s)
    } else {
        match spec_pop_component(s) {
            Some(t) => spec_pop_n(t, (n - 1) as nat),
            None => None,
        }
    }
}

fn path_sep(c: char) -> (r: bool)
    ensures
        r == is_path_sep(c),
{
    c == '/' || c == '\\'
}

/// Removes the last path component.
fn pop_path_component(s: &str) -> (r: Option<String>)
    ensures
        match r {
            Some(t) => spec_pop_component(s@) == Some(t@),
            None => spec_pop_component(s@) is None,
        },
{
    let slen = s.unicode_len();
    let mut e: usize = slen;
    proof {
        assert(s@.take(slen as int) =~= s@);
    }
    while e > 0 && path_sep(s.get_char(e - 1))
        invariant
            slen == s@.len(),
            e <= slen,
            strip_trailing_seps(s@) == strip_trailing_seps(s@.take(e as int)),
        decreases e,
    {
        proof {
            let cur = s@.take(e as int);
            assert(cur[e - 1] == s@[e - 1]);
            assert(cur.drop_last() =~= s@.take(e - 1));
        }
        e -= 1;
    }
    let ghost t = s@.take(e as int);
    proof {
        if e > 0 {
            assert(t[e - 1] == s@[e - 1]);
        }
        assert(strip_trailing_seps(t) =~= t);
    }
    if e == 0 {
        return None;
    }
    proof {
        assert(t.take(e as int) =~= t);
    }
    let mut i: usize = e;
    while i > 0 && !path_sep(s.get_char(i - 1))
        invariant
            slen == s@.len(),
            i <= e <= slen,
            t == s@.take(e as int),
            last_sep_index(t) == last_sep_index(t.take(i as int)),
        decreases i,
    {
        proof {
            let cur = t.take(i as int);
            assert(cur[i - 1] == t[i - 1] && t[i - 1] == s@[i - 1]);
            assert(cur.drop_last() =~= t.take(i - 1));
        }
        i -= 1;
    }
    proof {
        let cur = t.take(i as int);
        if i > 0 {
            assert(cur[i - 1] == t[i - 1] && t[i - 1] == s@[i - 1]);
            assert(last_sep_index(cur) == Some(i - 1));
        } else {
            assert(cur =~= Seq::<char>::empty());
        }
    }
    if i == 0 {
        proof {
            reveal_strlit("");
            assert(""@ =~= Seq::<char>::empty());
        }
        Some(String::new())
    } else if i == 1 {
        proof {
            assert(t.subrange(0, 1) =~= s@.subrange(0, 1));
        }
        Some(String::from_str(s.substring_char(0, 1)))
    } else {
        proof {
            assert(t.subrange(0, i - 1) =~= s@.subrange(0, i - 1));
        }
        Some(String::from_str(s.substring_char(0, i - 1)))
    }
}

/// The quoted project path a line of the user-targets file carries: the text
/// between its first `Project="` marker and the next `"` or the line's end;
/// nothing when the marker is absent or nothing follows it.
pub open spec fn project_path_of_line(line: Seq<char>) -> Option<Seq<char>> {
    match crate::text::first_match(line, "Project=\""@) {
        Some(i) => {
            let rest = line.subrange(i + 9, line.len() as int);
            if rest.len() == 0 {
                None
            } else {
                match crate::text::first_match(rest, seq!['"']) {
                    Some(j) => Some(rest.subrange(0, j)),
                    None => Some(rest),
                }
            }
        },
        None => None,
    }
}

/// The first line's project path, if any line carries one.
pub open spec fn first_project_path(lines: Seq<Seq<char>>) -> Option<Seq<char>>
    decreases lines.len(),
{
    if lines.len() == 0 {
        None
    } else {
        match project_path_of_line(lines[0]) {
            Some(p) => Some(p),
            None => first_project_path(lines.drop_first()),
        }
    }
}

proof fn lemma_first_project_path(lines: Seq<Seq<char>>)
    ensures
        match first_project_path(lines) {
            Some(p) => exists|i: int|
                0 <= i < lines.len() && project_path_of_line(#[trigger] lines[i]) == Some(p) && (
                forall|j: int| 0 <= j < i ==> project_path_of_line(lines[j]) is None),
            None => forall|j: int|
                0 <= j < lines.len() ==> project_path_of_line(#[trigger] lines[j]) is None,
        },
    decreases lines.len(),
{
    if lines.len() > 0 {
        match project_path_of_line(lines[0]) {
            Some(p) => {
                assert(project_path_of_line(lines[0]) == Some(p));
            },
            None => {
                lemma_first_project_path(lines.drop_first());
                let t = lines.drop_first();
                match first_project_path(t) {
                    Some(p) => {
                        let i = choose|i: int|
                            0 <= i < t.len() && project_path_of_line(#[trigger] t[i]) == Some(p)
                                && (forall|j: int|
                                0 <= j < i ==> project_path_of_line(t[j]) is None);
                        assert(lines[i + 1] == t[i]);
                        assert forall|j: int| 0 <= j < i + 1 implies project_path_of_line(
                            lines[j],
                        ) is None by {
                            if j > 0 {
                                assert(t[j - 1] == lines[j]);
                            }
                        }
                    },
                    None => {
                        assert forall|j: int| 0 <= j < lines.len() implies project_path_of_line(
                            #[trigger] lines[j],
                        ) is None by {
                            if j > 0 {
                                assert(t[j - 1] == lines[j]);
                            }
                        }
                    },
                }
            },
        }
    }
}

/// Reads the install tree root out of the user-targets file that `vcpkg
/// integrate install` writes: the first quoted project path is taken and its
/// last four components removed. `None` when no line carries a project path;
/// an error naming the path when it is too short to climb out of.
pub fn user_targets_root(lines: &Vec<String>) -> (r: Option<Result<String, Error>>)
    ensures
        match first_project_path(crate::text::seq_views(lines@)) {
            Some(path) => match spec_pop_n(path, 4) {
                Some(root) => match r {
                    Some(inner) => match inner {
                        Ok(s) => s@ == root,
                        Err(_) => false,
                    },
                    None => false,
                },
                None => match r {
                    Some(inner) => match inner {
                        Ok(_) => false,
                        Err(e) => match e {
                            Error::VcpkgNotFound(m) => m@ == "Could not find vcpkg root above "@
                                + path,
                            _ => false,
                        },
                    },
                    None => false,
                },
            },
            None => r is None,
        },
{
    let ghost lviews = crate::text::seq_views(lines@);
    let marker = "Project=\"";
    let quote = "\"";
    proof {
        reveal_strlit("Project=\"");
        reveal_strlit("\"");
        assert(quote@ =~= seq!['"']);
    }
    let n = lines.len();
    let mut k: usize = 0;
    while k < n
        invariant
            n == lines@.len(),
            lviews == crate::text::seq_views(lines@),
            marker@ == "Project=\""@,
            marker@.len() == 9,
            quote@ == seq!['"'],
            k <= n,
            forall|j: int| 0 <= j < k ==> project_path_of_line(#[trigger] lviews[j]) is None,
        decreases n - k,
    {
        assert(lviews[k as int] == lines@[k as int]@);
        let line: &String = &lines[k];
        match crate::text::find_sub(line.as_str(), marker) {
            Some(i) => {
                proof {
                    crate::text::lemma_first_match(line@, marker@);
                }
                let llen = line.as_str().unicode_len();
                let rest = line.as_str().substring_char(i + 9, llen);
                proof {
                    assert(rest@ =~= line@.subrange(i + 9, llen as int));
                }
                if rest.unicode_len() > 0 {
                    let path = match crate::text::find_sub(rest, quote) {
                        Some(j) => {
                            proof {
                                crate::text::lemma_first_match(rest@, quote@);
                            }
                            String::from_str(rest.substring_char(0, j))
                        },
                        None => String::from_str(rest),
                    };
                    proof {
                        assert(project_path_of_line(lviews[k as int]) == Some(path@));
                        lemma_first_project_path(lviews);
                        match first_project_path(lviews) {
                            Some(p) => {
                                let w = choose|w: int|
                                    0 <= w < lviews.len() && project_path_of_line(
                                        #[trigger] lviews[w],
                                    ) == Some(p) && (forall|j: int|
                                        0 <= j < w ==> project_path_of_line(lviews[j]) is None);
                                assert(!(w < k) && !(k < w));
                                assert(first_project_path(lviews) == Some(path@));
                            },
                            None => {
                                assert(project_path_of_line(lviews[k as int]) is None);
                            },
                        }
                    }
                    return Some(pop_four(path));
                }
                assert(project_path_of_line(lviews[k as int]) is None);
            },
            None => {
                assert(project_path_of_line(lviews[k as int]) is None);
            },
        }
        k += 1;
    }
    proof {
        lemma_first_project_path(lviews);
        if first_project_path(lviews) is Some {
            let w = choose|w: int|
                0 <= w < lviews.len() && project_path_of_line(#[trigger] lviews[w])
                    == Some(first_project_path(lviews)->Some_0) && (forall|j: int|
                    0 <= j < w ==> project_path_of_line(lviews[j]) is None);
            assert(project_path_of_line(lviews[w]) is Some);
        }
    }
    None
}

/// Climbs four components out of the project path, as the project file sits
/// four directories below the tree root.
fn pop_four(path: String) -> (r: Result<String, Error>)
    ensures
        match spec_pop_n(path@, 4) {
            Some(root) => match r {
                Ok(s) => s@ == root,
                Err(_) => false,
            },
            None => match r {
                Ok(_) => false,
                Err(e) => match e {
                    Error::VcpkgNotFound(m) => m@ == "Could not find vcpkg root above "@ + path@,
                    _ => false,
                },
            },
        },
{
    let popped: Option<String> = match pop_path_component(path.as_str()) {
        Some(p1) => {
            proof {
                assert(spec_pop_n(path@, 4) == spec_pop_n(p1@, 3));
            }
            match pop_path_component(p1.as_str()) {
                Some(p2) => {
                    proof {
                        assert(spec_pop_n(p1@, 3) == spec_pop_n(p2@, 2));
                    }
                    match pop_path_component(p2.as_str()) {
                        Some(p3) => {
                            proof {
                                assert(spec_pop_n(p2@, 2) == spec_pop_n(p3@, 1));
                            }
                            match pop_path_component(p3.as_str()) {
                                Some(p4) => {
                                    proof {
                                        assert(spec_pop_n(p3@, 1) == spec_pop_n(p4@, 0));
                                        assert(spec_pop_n(p4@, 0) == Some(p4@));
                                    }
                                    Some(p4)
                                },
                                None => None,
                            }
                        },
                        None => None,
                    }
                },
                None => None,
            }
        },
        None => None,
    };
    match popped {
        Some(root) => Ok(root),
        None => {
            let mut msg = String::from_str("Could not find vcpkg root above ");
            crate::text::append_str(&mut msg, path.as_str());
            Err(Error::VcpkgNotFound(msg))
        },
    }
}

/// Removes the first occurrence of `item` from `cont`, returning it.
pub fn remove_item(cont: &mut Vec<String>, item: &String) -> (removed: Option<String>)
    ensures
        match crate::text::first_index_of(crate::text::seq_views(old(cont)@), item@) {
            Some(i) => {
                &&& removed == Some(old(cont)@[i])
                &&& final(cont)@ == old(cont)@.remove(i)
            },
            None => removed is None && final(cont)@ == old(cont)@,
        },
{
    let ghost views = crate::text::seq_views(cont@);
    let n = cont.len();
    let mut i: usize = 0;
    while i < n
        invariant
            i <= n,
            n == cont@.len(),
            cont@ == old(cont)@,
            views == crate::text::seq_views(cont@),
            forall|j: int| 0 <= j < i ==> views[j] != item@,
        decreases n - i,
    {
        if crate::text::str_eq(cont[i].as_str(), item.as_str()) {
            assert(views[i as int] == item@);
            proof {
                crate::text::lemma_first_index_of_found(views, item@, i as int);
            }
            let removed = cont.remove(i);
            return Some(removed);
        }
        assert(views[i as int] != item@);
        i += 1;
    }
    proof {
        crate::text::lemma_first_index_of_absent(views, item@);
    }
    None
}

} // verus!
