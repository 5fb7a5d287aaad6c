//! A plain-value description of one install tree, read from disk by the
//! caller before a probe runs. Resolution works only over this description;
//! it never touches the filesystem itself.
use vstd::prelude::*;

use crate::text::seq_views;

verus! {

/// One text file, keyed by its file name.
pub struct NamedFile {
    pub name: String,
    pub lines: Vec<String>,
}

/// The mathematical content of a [`NamedFile`].
pub struct NamedFileView {
    pub name: Seq<char>,
    pub lines: Seq<Seq<char>>,
}

impl View for NamedFile {
    type V = NamedFileView;

    open spec fn view(&self) -> NamedFileView {
        NamedFileView { name: self.name@, lines: seq_views(self.lines@) }
    }
}

/// One metadata file: its identifier (the file's stem) and its full text.
pub struct PcText {
    pub id: String,
    pub text: String,
}

/// The mathematical content of a [`PcText`].
pub struct PcTextView {
    pub id: Seq<char>,
    pub text: Seq<char>,
}

impl View for PcText {
    type V = PcTextView;

    open spec fn view(&self) -> PcTextView {
        PcTextView { id: self.id@, text: self.text@ }
    }
}

/// The metadata directory of one port: its key is the directory name under
/// the packages tree, of the form `<port>_<triplet>`.
pub struct PcDir {
    pub key: String,
    pub files: Vec<PcText>,
}

/// The mathematical content of a [`PcDir`].
pub struct PcDirView {
    pub key: Seq<char>,
    pub files: Seq<PcTextView>,
}

impl View for PcDir {
    type V = PcDirView;

    open spec fn view(&self) -> PcDirView {
        PcDirView { key: self.key@, files: self.files@.map_values(|f: PcText| f@) }
    }
}

/// The library and binary directory listings of one triplet under the
/// `installed` tree: the plain file names found in `lib` and `bin`.
pub struct TripletDir {
    pub triplet: String,
    pub lib_files: Vec<String>,
    pub bin_files: Vec<String>,
}

/// The mathematical content of a [`TripletDir`].
pub struct TripletDirView {
    pub triplet: Seq<char>,
    pub lib_files: Seq<Seq<char>>,
    pub bin_files: Seq<Seq<char>>,
}

impl View for TripletDir {
    type V = TripletDirView;

    open spec fn view(&self) -> TripletDirView {
        TripletDirView {
            triplet: self.triplet@,
            lib_files: seq_views(self.lib_files@),
            bin_files: seq_views(self.bin_files@),
        }
    }
}

/// Everything a probe reads from one install tree, as plain values:
/// the tree's root path, whether the root's sentinel marker file exists, the
/// status file and its update files, the per-port manifest list files, the
/// per-port metadata directories, and the per-triplet directory listings used
/// to verify that a library file exists.
pub struct InstallTree {
    /// Path of the tree's root directory.
    pub root: String,
    /// The sentinel marker file exists directly under the root.
    pub has_root_marker: bool,
    /// Lines of the primary status file, when it exists.
    pub status_lines: Option<Vec<String>>,
    /// The status updates directory could be read.
    pub has_updates_dir: bool,
    /// The files of the updates directory, each with its lines.
    pub updates: Vec<NamedFile>,
    /// The per-port installed-file manifests, each with its lines.
    pub manifests: Vec<NamedFile>,
    /// The per-port metadata directories.
    pub pc_dirs: Vec<PcDir>,
    /// The per-triplet `lib` and `bin` directory listings.
    pub triplet_dirs: Vec<TripletDir>,
}

/// The mathematical content of an [`InstallTree`].
pub struct InstallTreeView {
    pub root: Seq<char>,
    pub has_root_marker: bool,
    pub status_lines: Option<Seq<Seq<char>>>,
    pub has_updates_dir: bool,
    pub updates: Seq<NamedFileView>,
    pub manifests: Seq<NamedFileView>,
    pub pc_dirs: Seq<PcDirView>,
    pub triplet_dirs: Seq<TripletDirView>,
}

impl View for InstallTree {
    type V = InstallTreeView;

    open spec fn view(&self) -> InstallTreeView {
        InstallTreeView {
            root: self.root@,
            has_root_marker: self.has_root_marker,
            status_lines: match self.status_lines {
                Some(lines) => Some(seq_views(lines@)),
                None => None,
            },
            has_updates_dir: self.has_updates_dir,
            updates: self.updates@.map_values(|f: NamedFile| f@),
            manifests: self.manifests@.map_values(|f: NamedFile| f@),
            pc_dirs: self.pc_dirs@.map_values(|d: PcDir| d@),
            triplet_dirs: self.triplet_dirs@.map_values(|d: TripletDir| d@),
        }
    }
}

} // verus!
