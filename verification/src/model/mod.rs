//! The pure layout model: identities, tab groups and the packed grid.

pub mod group;
pub mod distinct;
pub mod layout;
pub mod packed;
pub mod serial;
pub mod sizes;
pub mod stable;

pub use group::Group;

use vstd::prelude::*;

verus! {

/// Stable identity of a panel (a single widget), supplied by the host.
#[derive(Debug, Hash)]
pub struct PanelId(pub String);

impl View for PanelId {
    type V = Seq<char>;

    open spec fn view(&self) -> Seq<char> {
        self.0@
    }
}

impl PartialEq for PanelId {
    fn eq(&self, other: &Self) -> (r: bool) {
        self.0 == other.0
    }
}

impl vstd::std_specs::cmp::PartialEqSpecImpl for PanelId {
    open spec fn obeys_eq_spec() -> bool {
        true
    }

    open spec fn eq_spec(&self, other: &Self) -> bool {
        self@ == other@
    }
}

impl Eq for PanelId {}

impl Clone for PanelId {
    fn clone(&self) -> (r: Self)
        ensures
            r == *self,
    {
        PanelId(self.0.clone())
    }
}

/// Stable identity of a group (a tab-strip tile holding one or more panels).
#[derive(Clone, Copy, Debug, PartialEq, Eq, Hash, Structural)]
pub struct GroupId(pub u64);

} // verus!
