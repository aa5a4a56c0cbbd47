//! Identities in the reducer stay distinct, and what that buys the view: [`unique`] says that in
//! the layout and in every undo snapshot no two tiles host the same group, every group id is
//! already minted, and no panel occurs twice. A fresh reducer has it; each operation keeps it as
//! long as what the host hands in is fresh (a placed group, an opened panel, a loaded layout) and
//! a torn tab is still listed in its strip when it lands. With it, an armed drag marks exactly
//! one tile of its preview: its landing shadow, or the header it joins.

use vstd::prelude::*;

use crate::model::distinct::{distinct, id_count, lemma_count_none, lemma_distinct_regroup, occ_all};
use crate::model::group::{first_pos, GroupView};
use crate::model::packed::{lemma_locate_from, locate, CellView, GridView};
use crate::model::GroupId;
use crate::state::{activated, capture_step, pushed, state_inv, wants_snapshot, StateView};

verus! {

/// The layout and every undo snapshot have distinct identities.
pub open spec fn unique(s: StateView) -> bool {
    &&& distinct(s.grid)
    &&& forall|i: int| 0 <= i < s.history.len() ==> distinct(#[trigger] s.history[i])
}

/// A grid without tiles has distinct identities, whatever id it mints next.
pub proof fn lemma_empty_distinct(g: GridView)
    requires
        g.cells.len() == 0,
    ensures
        distinct(g),
{
    assert forall|id: GroupId| #[trigger] id_count(g.cells, id) <= 1 by {
        lemma_count_none(g.cells, |c: CellView| c.group.id == id);
    }
    assert forall|p: Seq<char>| #[trigger] occ_all(g.cells, p) <= 1 by {}
}

/// Taking a snapshot keeps the identities distinct: the snapshot is the layout itself.
pub proof fn lemma_capture_unique(s: StateView)
    requires
        state_inv(s),
        unique(s),
    ensures
        unique(capture_step(s)),
{
    if wants_snapshot(s) {
        let h = pushed(s.history, s.cursor, s.grid);
        assert forall|i: int| 0 <= i < h.len() implies distinct(#[trigger] h[i]) by {
            if i < h.len() - 1 {
                assert(h[i] == s.history[i]);
            }
        }
    }
}

/// Activating a tab keeps the identities distinct: only the active index changes.
pub proof fn lemma_activated_distinct(g: GridView, panel: Seq<char>, from: GroupId)
    requires
        distinct(g),
    ensures
        distinct(activated(g, panel, from)),
{
    if let Some(i) = locate(g.cells, from) {
        if let Some(k) = first_pos(g.cells[i].group.tabs, panel) {
            lemma_locate_from(g.cells, from, 0);
            let c = g.cells[i];
            let nc = CellView { group: GroupView { active: k, ..c.group }, ..c };
            lemma_distinct_regroup(g.cells, i, nc, g.next_group_id);
            assert forall|p: Seq<char>| #[trigger] occ_all(g.cells.update(i, nc), p) <= 1 by {
                assert(occ_all(g.cells, p) <= 1);
            }
        }
    }
}

} // verus!
