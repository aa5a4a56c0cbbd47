//! A tile's tab group: an ordered list of panels, exactly one of them active.

use vstd::prelude::*;

use crate::model::{GroupId, PanelId};

verus! {

/// A tab strip: the panels it hosts, in strip order, and the index of the active one.
#[derive(Debug)]
pub struct Group {
    pub id: GroupId,
    pub tabs: Vec<PanelId>,
    pub active: usize,
}

/// The mathematical model of a [`Group`]: panel identities by their text.
pub struct GroupView {
    pub id: GroupId,
    pub tabs: Seq<Seq<char>>,
    pub active: int,
}

/// The identities of a list of panels.
pub open spec fn panel_views(ps: Seq<PanelId>) -> Seq<Seq<char>> {
    ps.map_values(|p: PanelId| p@)
}

/// Index of the first tab equal to `p`, searching from position `k`.
pub open spec fn first_pos_from(tabs: Seq<Seq<char>>, p: Seq<char>, k: int) -> Option<int>
    decreases tabs.len() - k,
{
    if k < 0 || k >= tabs.len() {
        None
    } else if tabs[k] == p {
        Some(k)
    } else {
        first_pos_from(tabs, p, k + 1)
    }
}

/// Index of the first tab equal to `p`, if any.
pub open spec fn first_pos(tabs: Seq<Seq<char>>, p: Seq<char>) -> Option<int> {
    first_pos_from(tabs, p, 0)
}

/// The group after `p` is taken out of it. The tab after the removed one slides into its slot;
/// the active index follows its panel, and falls back to the new last tab when it would point
/// past the end.
pub open spec fn group_without(g: GroupView, p: Seq<char>) -> GroupView {
    match first_pos(g.tabs, p) {
        None => g,
        Some(i) => {
            let tabs = g.tabs.remove(i);
            GroupView {
                id: g.id,
                tabs,
                active: if g.active > i || (g.active == tabs.len() && g.active > 0) {
                    g.active - 1
                } else {
                    g.active
                },
            }
        },
    }
}

/// A group is well formed when it hosts at least one tab and its active index is in range.
pub open spec fn group_wf(g: GroupView) -> bool {
    &&& g.tabs.len() > 0
    &&& 0 <= g.active < g.tabs.len()
}

/// The first match from `k` on is a match, and nothing before it from `k` on matches.
pub proof fn lemma_first_pos_from(tabs: Seq<Seq<char>>, p: Seq<char>, k: int)
    requires
        0 <= k,
    ensures
        first_pos_from(tabs, p, k) matches Some(i) ==> k <= i < tabs.len() && tabs[i] == p
            && forall|j: int| k <= j < i ==> tabs[j] != p,
        first_pos_from(tabs, p, k) is None ==> forall|j: int| k <= j < tabs.len() ==> tabs[j] != p,
    decreases tabs.len() - k,
{
    if k < tabs.len() && tabs[k] != p {
        lemma_first_pos_from(tabs, p, k + 1);
    }
}

/// Taking a tab out of a well-formed group that keeps a tab leaves it well formed.
pub proof fn lemma_group_without_wf(g: GroupView, p: Seq<char>)
    requires
        group_wf(g),
        group_without(g, p).tabs.len() > 0,
    ensures
        group_wf(group_without(g, p)),
{
    lemma_first_pos_from(g.tabs, p, 0);
}

impl View for Group {
    type V = GroupView;

    open spec fn view(&self) -> GroupView {
        GroupView { id: self.id, tabs: panel_views(self.tabs@), active: self.active as int }
    }
}

impl Clone for Group {
    fn clone(&self) -> (r: Self)
        ensures
            r@ == self@,
    {
        let mut tabs: Vec<PanelId> = Vec::new();
        let mut i: usize = 0;
        while i < self.tabs.len()
            invariant
                i <= self.tabs.len(),
                tabs@.len() == i,
                forall|j: int| 0 <= j < i ==> tabs@[j]@ == self.tabs@[j]@,
            decreases self.tabs.len() - i,
        {
            tabs.push(self.tabs[i].clone());
            i += 1;
        }
        let r = Group { id: self.id, tabs, active: self.active };
        assert(panel_views(r.tabs@) =~= panel_views(self.tabs@));
        r
    }
}

impl Group {
    /// A fresh single-tab group.
    pub fn new(id: GroupId, panel: PanelId) -> (g: Group)
        ensures
            g@ == (GroupView { id, tabs: seq![panel@], active: 0 }),
    {
        let g = Group { id, tabs: vec![panel], active: 0 };
        assert(panel_views(g.tabs@) =~= seq![panel@]);
        g
    }

    /// The panel whose tab is active.
    pub fn active_panel(&self) -> (p: &PanelId)
        requires
            self.active < self.tabs.len(),
        ensures
            p@ == self@.tabs[self@.active],
    {
        &self.tabs[self.active]
    }

    /// Insert `panel` as a tab at slot `at` and activate it.
    pub fn insert_tab(&mut self, panel: PanelId, at: usize)
        requires
            at <= old(self).tabs.len(),
        ensures
            final(self)@ == (GroupView {
                id: old(self)@.id,
                tabs: old(self)@.tabs.insert(at as int, panel@),
                active: at as int,
            }),
    {
        let ghost p = panel@;
        self.tabs.insert(at, panel);
        self.active = at;
        assert(panel_views(self.tabs@) =~= panel_views(old(self).tabs@).insert(at as int, p));
    }

    /// Slot of the first tab showing `panel`, if any.
    pub fn position(&self, panel: &PanelId) -> (r: Option<usize>)
        ensures
            r matches Some(i) ==> first_pos(self@.tabs, panel@) == Some(i as int) && i < self.tabs.len(),
            r is None ==> first_pos(self@.tabs, panel@) is None,
    {
        let mut i: usize = 0;
        while i < self.tabs.len()
            invariant
                i <= self.tabs.len(),
                first_pos(self@.tabs, panel@) == first_pos_from(self@.tabs, panel@, i as int),
            decreases self.tabs.len() - i,
        {
            if self.tabs[i] == *panel {
                proof {
                    lemma_first_pos_from(self@.tabs, panel@, 0);
                }
                return Some(i);
            }
            i += 1;
        }
        None
    }

    /// Take `panel` out of the strip. Returns whether the group is now empty.
    pub fn remove_tab(&mut self, panel: &PanelId) -> (emptied: bool)
        ensures
            final(self)@ == group_without(old(self)@, panel@),
            emptied == (final(self)@.tabs.len() == 0),
    {
        match self.position(panel) {
            None => {},
            Some(i) => {
                let ghost before = self.tabs@;
                self.tabs.remove(i);
                assert(panel_views(self.tabs@) =~= panel_views(before).remove(i as int));
                if self.active > i || (self.active == self.tabs.len() && self.active > 0) {
                    self.active = self.active - 1;
                }
            },
        }
        self.tabs.len() == 0
    }

    /// Whether two groups are the same: same id, same panels in the same order, same active tab.
    pub fn same(&self, other: &Group) -> (r: bool)
        ensures
            r == (self@ == other@),
    {
        if self.id != other.id || self.active != other.active || self.tabs.len() != other.tabs.len() {
            proof {
                if self.tabs.len() != other.tabs.len() {
                    assert(self@.tabs.len() != other@.tabs.len());
                }
            }
            return false;
        }
        let mut i: usize = 0;
        while i < self.tabs.len()
            invariant
                i <= self.tabs.len(),
                self.tabs.len() == other.tabs.len(),
                forall|j: int| 0 <= j < i ==> self@.tabs[j] == other@.tabs[j],
            decreases self.tabs.len() - i,
        {
            if self.tabs[i] != other.tabs[i] {
                proof {
                    assert(self@.tabs[i as int] != other@.tabs[i as int]);
                }
                return false;
            }
            i += 1;
        }
        proof {
            assert(self@.tabs =~= other@.tabs);
        }
        true
    }
}

impl PartialEq for Group {
    fn eq(&self, other: &Self) -> (r: bool) {
        self.same(other)
    }
}

impl vstd::std_specs::cmp::PartialEqSpecImpl for Group {
    open spec fn obeys_eq_spec() -> bool {
        true
    }

    open spec fn eq_spec(&self, other: &Self) -> bool {
        self@ == other@
    }
}

} // verus!
