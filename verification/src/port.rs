//! One installed package unit, as read from the status database.
use vstd::prelude::*;

verus! {

/// One entry per installed package for one architecture, immutable once the
/// status database has been loaded.
#[derive(Clone, Debug)]
pub struct Port {
    /// Shared libraries this port installed, as file names.
    pub dlls: Vec<String>,
    /// Static or import libraries this port installed, as file names.
    pub libs: Vec<String>,
    /// Names of the ports this port depends on; resolved later by lookup.
    pub deps: Vec<String>,
}

/// The mathematical content of a [`Port`].
pub struct PortView {
    pub dlls: Seq<Seq<char>>,
    pub libs: Seq<Seq<char>>,
    pub deps: Seq<Seq<char>>,
}

impl View for Port {
    type V = PortView;

    open spec fn view(&self) -> PortView {
        PortView {
            dlls: crate::text::seq_views(self.dlls@),
            libs: crate::text::seq_views(self.libs@),
            deps: crate::text::seq_views(self.deps@),
        }
    }
}

} // verus!
