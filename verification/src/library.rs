//! The result of a successful probe.
use vstd::prelude::*;

verus! {

/// Details of a package that was found: search paths, verified library file
/// paths, link names, the contributing ports in link order, and the build
/// directive lines to hand to the host build tool. Paths are plain strings
/// joined with `/`.
#[derive(Debug)]
pub struct Library {
    /// Paths for the linker to search for static or import libraries.
    pub link_paths: Vec<String>,
    /// Paths to search at runtime to find shared libraries.
    pub dll_paths: Vec<String>,
    /// Paths to include files.
    pub include_paths: Vec<String>,
    /// Build directive lines, each of the form `directive-name=value`.
    pub cargo_metadata: Vec<String>,
    /// Libraries found are static.
    pub is_static: bool,
    /// Shared library files found, as full paths.
    pub found_dlls: Vec<String>,
    /// Static or import library files found, as full paths.
    pub found_libs: Vec<String>,
    /// Link names of the libraries found, after prefix stripping.
    pub found_names: Vec<String>,
    /// Ports providing the libraries to link to, in port link order.
    pub ports: Vec<String>,
    /// The target triplet the probe selected.
    pub vcpkg_triplet: String,
}

/// The mathematical content of a [`Library`].
pub struct LibraryView {
    pub link_paths: Seq<Seq<char>>,
    pub dll_paths: Seq<Seq<char>>,
    pub include_paths: Seq<Seq<char>>,
    pub cargo_metadata: Seq<Seq<char>>,
    pub is_static: bool,
    pub found_dlls: Seq<Seq<char>>,
    pub found_libs: Seq<Seq<char>>,
    pub found_names: Seq<Seq<char>>,
    pub ports: Seq<Seq<char>>,
    pub vcpkg_triplet: Seq<char>,
}

impl View for Library {
    type V = LibraryView;

    open spec fn view(&self) -> LibraryView {
        LibraryView {
            link_paths: crate::text::seq_views(self.link_paths@),
            dll_paths: crate::text::seq_views(self.dll_paths@),
            include_paths: crate::text::seq_views(self.include_paths@),
            cargo_metadata: crate::text::seq_views(self.cargo_metadata@),
            is_static: self.is_static,
            found_dlls: crate::text::seq_views(self.found_dlls@),
            found_libs: crate::text::seq_views(self.found_libs@),
            found_names: crate::text::seq_views(self.found_names@),
            ports: crate::text::seq_views(self.ports@),
            vcpkg_triplet: self.vcpkg_triplet@,
        }
    }
}

impl Library {
    /// An empty result for the given linkage and triplet.
    pub fn new(is_static: bool, vcpkg_triplet: &str) -> (r: Library)
        ensures
            r.link_paths@.len() == 0,
            r.dll_paths@.len() == 0,
            r.include_paths@.len() == 0,
            r.cargo_metadata@.len() == 0,
            r.is_static == is_static,
            r.found_dlls@.len() == 0,
            r.found_libs@.len() == 0,
            r.found_names@.len() == 0,
            r.ports@.len() == 0,
            r.vcpkg_triplet@ == vcpkg_triplet@,
    {
        Library {
            link_paths: Vec::new(),
            dll_paths: Vec::new(),
            include_paths: Vec::new(),
            cargo_metadata: Vec::new(),
            is_static,
            found_dlls: Vec::new(),
            found_libs: Vec::new(),
            found_names: Vec::new(),
            ports: Vec::new(),
            vcpkg_triplet: String::from_str(vcpkg_triplet),
        }
    }

    /// Where each found shared library would be copied under the given output
    /// directory: one destination path per entry of `found_dlls`, keeping the
    /// file's name.
    pub fn dll_destinations(&self, out_dir: &str) -> (r: Vec<String>)
        ensures
            r@.len() == self.found_dlls@.len(),
            forall|i: int|
                0 <= i < r@.len() ==> crate::text::seq_views(r@)[i] == out_dir@.push('/')
                    + crate::text::spec_file_name(crate::text::seq_views(self.found_dlls@)[i]),
    {
        let n = self.found_dlls.len();
        let mut out: Vec<String> = Vec::new();
        let mut i: usize = 0;
        while i < n
            invariant
                n == self.found_dlls@.len(),
                i <= n,
                out@.len() == i,
                forall|j: int|
                    0 <= j < i ==> crate::text::seq_views(out@)[j] == out_dir@.push('/')
                        + crate::text::spec_file_name(
                        crate::text::seq_views(self.found_dlls@)[j],
                    ),
            decreases n - i,
        {
            let ghost prev = out@;
            let name = crate::text::file_name_of(self.found_dlls[i].as_str());
            let dest = crate::text::join_path(out_dir, name.as_str());
            out.push(dest);
            proof {
                assert(crate::text::seq_views(out@) =~= crate::text::seq_views(prev).push(
                    out@.last()@,
                ));
            }
            i += 1;
        }
        out
    }
}

} // verus!
