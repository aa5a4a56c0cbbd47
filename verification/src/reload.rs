//! Saving and reloading in the same view gives the layout back unchanged. The property is
//! [`reload_stable`]: the layout reflows into its own view as it is, and every tile of it and of
//! every undo snapshot is at least one step tall. A fresh reducer has it, and each operation that
//! changes the layout, the column count or the history keeps it, as long as the tiles it makes
//! are at least one step wide and tall (a minimum of one step counts).

use vstd::prelude::*;

use crate::config::binds;
use crate::laws::lemma_measured_cols;
use crate::model::group::{first_pos, group_without, GroupView};
use crate::model::layout::{edges_fit, lemma_total_h_update, packed, rest_height, total_h};
use crate::model::packed::{
    add_tab_spec, clamp_x, close_spec, detach, drop_is_noop, insert_tabs, landed, lemma_detach, lemma_locate_from,
    lemma_remove_fits, lemma_reranked, lemma_same_rects, lemma_total_h_push, locate, min_int, placed_cell, placed_h, reranked,
    resize_ok, resize_spec, resized_cell, CellView, DragSourceView, DropTarget, GridView,
};
use crate::model::stable::{
    cell_fits, fits_all, lemma_detach_stable, lemma_empty_stable, lemma_fits_shape, lemma_gravity_stable,
    lemma_placed_fits, lemma_refit_stable, lemma_reranked_stable, lemma_resized_fits, lemma_stable_fits,
    lemma_stable_regroup, lemma_tall_len, reflow_stable, tall,
};
use crate::model::GroupId;
use crate::state::{
    capture_step, closable, drag_ok, grip, grip_ok, grip_step, key_ok, key_step, layout_ok, loaded, measure_step,
    measured_cols, placed, pushed, release_step, state_inv, walk, wants_snapshot, StateView,
};

verus! {

/// A save and reload in the same view gives this layout back: it reflows into the live column
/// count unchanged, and every tile of it and of every undo snapshot is at least one step tall.
pub open spec fn reload_stable(s: StateView) -> bool {
    &&& reflow_stable(s.grid.cells, s.cols as int)
    &&& forall|i: int| 0 <= i < s.history.len() ==> tall(#[trigger] s.history[i].cells)
}

/// What a sound, reload-stable layout offers the proofs below: its tiles fit the view, are tall,
/// and are few enough to rank.
pub proof fn lemma_stable_layout(s: StateView)
    requires
        state_inv(s),
        reload_stable(s),
    ensures
        fits_all(s.grid.cells, s.cols as int),
        tall(s.grid.cells),
        s.grid.cells.len() <= total_h(s.grid.cells) <= u32::MAX,
        edges_fit(s.grid.cells),
        packed(s.grid.cells),
{
    lemma_tall_len(s.grid.cells);
    lemma_stable_fits(s.grid.cells, s.cols as int);
}

/// Placing a tile whose size, raised to its minimum, is at least one step each way keeps a layout
/// reload-stable.
pub proof fn lemma_place_keeps(s: StateView, group: GroupView, w: u32, h: u32, min: (u32, u32))
    requires
        state_inv(s),
        state_inv(placed(s, group, w, h, min)),
        reload_stable(s),
        total_h(s.grid.cells) + placed_h(h, min.1) <= u32::MAX,
        1 <= h || 1 <= min.1,
        1 <= w || 1 <= min.0,
    ensures
        reload_stable(placed(s, group, w, h, min)),
{
    let cs = s.grid.cells;
    lemma_stable_layout(s);
    let c = placed_cell(cs, group, w, h, min, s.cols);
    let x = cs.push(c);
    lemma_placed_fits(cs, group, w, h, min, s.cols);
    lemma_reranked(x);
    lemma_same_rects(reranked(x), x);
    assert forall|i: int| 0 <= i < x.len() implies (#[trigger] x[i]).h >= 1 && cell_fits(x[i], s.cols as int) by {
        if i < cs.len() {
            assert(x[i] == cs[i]);
        }
    }
    lemma_reranked_stable(x, s.cols as int);
}

/// Resizing a tile to at least one step wide and tall (or with minimums that keep it so) keeps a
/// layout reload-stable.
pub proof fn lemma_resize_keeps(s: StateView, idx: usize, new_w: u32, new_h: u32)
    requires
        state_inv(s),
        reload_stable(s),
        resize_ok(s.grid, idx, new_w, new_h, s.cols),
        new_w >= 1 || s.grid.cells[idx as int].min_w >= 1,
        new_h >= 1 || s.grid.cells[idx as int].min_h >= 1,
    ensures
        reload_stable(StateView { grid: resize_spec(s.grid, idx, new_w, new_h, s.cols), ..s }),
{
    let cs = s.grid.cells;
    lemma_stable_layout(s);
    let rc = resized_cell(cs[idx as int], new_w, new_h, s.cols);
    lemma_resized_fits(cs[idx as int], new_w, new_h, s.cols);
    let u = cs.update(idx as int, rc);
    assert forall|i: int| 0 <= i < u.len() implies (#[trigger] u[i]).h >= 1 && cell_fits(u[i], s.cols as int) by {
        if i != idx {
            assert(u[i] == cs[i]);
        }
    }
    lemma_gravity_stable(u, Some(idx), s.cols as int);
}

/// Closing the active tab of a pane keeps a layout reload-stable: a pane that keeps tabs only
/// changes its strip, and one left empty leaves the grid, the rest settling under gravity.
pub proof fn lemma_close_keeps(s: StateView, id: GroupId)
    requires
        state_inv(s),
        reload_stable(s),
        closable(s.grid, id),
    ensures
        reload_stable(StateView { grid: close_spec(s.grid, id), ..s }),
{
    let cs = s.grid.cells;
    lemma_stable_layout(s);
    lemma_locate_from(cs, id, 0);
    let i = locate(cs, id).unwrap();
    let c = cs[i];
    let ng = group_without(c.group, c.group.tabs[c.group.active]);
    if ng.tabs.len() == 0 {
        let u = cs.remove(i);
        lemma_remove_fits(cs, i);
        assert forall|j: int| 0 <= j < u.len() implies (#[trigger] u[j]).h >= 1 && cell_fits(u[j], s.cols as int) by {
            if j < i {
                assert(u[j] == cs[j]);
            } else {
                assert(u[j] == cs[j + 1]);
            }
        }
        lemma_gravity_stable(u, None, s.cols as int);
    } else {
        lemma_stable_regroup(cs, s.cols as int, i, CellView { group: ng, ..c });
    }
}

/// Opening a tab in a pane keeps a layout reload-stable: only the pane's strip changes.
pub proof fn lemma_add_tab_keeps(s: StateView, id: GroupId, panel: Seq<char>)
    requires
        state_inv(s),
        reload_stable(s),
        locate(s.grid.cells, id) is Some,
    ensures
        reload_stable(StateView { grid: add_tab_spec(s.grid, id, panel), ..s }),
{
    let cs = s.grid.cells;
    lemma_stable_layout(s);
    lemma_locate_from(cs, id, 0);
    let i = locate(cs, id).unwrap();
    let c = cs[i];
    let ng = GroupView { id: c.group.id, tabs: c.group.tabs.push(panel), active: c.group.tabs.len() as int };
    lemma_stable_regroup(cs, s.cols as int, i, CellView { group: ng, ..c });
}

/// A measure keeps a layout reload-stable: a change of column count reflows it into the new one.
pub proof fn lemma_measure_keeps(s: StateView, width_px: u64)
    requires
        state_inv(s),
        reload_stable(s),
    ensures
        reload_stable(measure_step(s, width_px)),
{
    lemma_stable_layout(s);
    lemma_measured_cols(s, width_px);
    let c = measured_cols(s, width_px);
    if c != s.cols {
        lemma_refit_stable(s.grid.cells, c as int);
    }
}

/// Taking a snapshot keeps a layout reload-stable: the snapshot is the layout itself.
pub proof fn lemma_capture_keeps(s: StateView)
    requires
        state_inv(s),
        reload_stable(s),
    ensures
        reload_stable(capture_step(s)),
{
    if wants_snapshot(s) {
        let h = pushed(s.history, s.cursor, s.grid);
        assert forall|i: int| 0 <= i < h.len() implies tall(#[trigger] h[i].cells) by {
            if i < h.len() - 1 {
                assert(h[i] == s.history[i]);
            }
        }
    }
}

/// Walking the history keeps a layout reload-stable: the snapshot is reflowed into the live view.
pub proof fn lemma_walk_keeps(s: StateView, dir: int)
    requires
        state_inv(s),
        reload_stable(s),
    ensures
        reload_stable(walk(s, dir)),
{
    let n = s.cursor + dir;
    if 0 <= n < s.history.len() {
        assert(layout_ok(s.history[n]));
        assert(tall(s.history[n].cells));
        lemma_refit_stable(s.history[n].cells, s.cols as int);
    }
}

/// Loading a layout whose tiles are all at least one step tall keeps the reducer reload-stable:
/// the layout is reflowed into the live view.
pub proof fn lemma_load_keeps(s: StateView, g: GridView)
    requires
        state_inv(s),
        reload_stable(s),
        tall(g.cells),
        total_h(g.cells) <= u32::MAX,
    ensures
        reload_stable(loaded(s, g)),
{
    lemma_refit_stable(g.cells, s.cols as int);
}

/// A grip move keeps a layout reload-stable while the moved sizes stay at least one step (or the
/// tile's minimums keep them so).
pub proof fn lemma_grip_keeps(s: StateView, dw: i64, dh: i64)
    requires
        state_inv(s),
        reload_stable(s),
        grip_ok(s, dw, dh),
        s.resize matches Some(r) ==> (grip(r.w, dw) >= 1 || s.grid.cells[r.idx as int].min_w >= 1) && (grip(r.h, dh)
            >= 1 || s.grid.cells[r.idx as int].min_h >= 1),
    ensures
        reload_stable(grip_step(s, dw, dh)),
{
    if let Some(r) = s.resize {
        lemma_resize_keeps(s, r.idx, grip(r.w, dw), grip(r.h, dh));
    }
}

/// A key keeps a layout reload-stable: undo and redo walk the history, close closes a pane, and
/// the rest leave the layout alone.
pub proof fn lemma_key_keeps(s: StateView, key: Seq<char>, alt: bool, ctrl: bool, hit: Option<GroupId>)
    requires
        state_inv(s),
        reload_stable(s),
        key_ok(s, key, alt, ctrl),
    ensures
        reload_stable(key_step(s, key, alt, ctrl, hit).0),
{
    let kb = s.cfg.keybinds;
    if key == "Escape"@ && (s.help || s.popups != Set::<GroupId>::empty()) {
    } else if binds(kb.undo, key, alt, ctrl) {
        lemma_walk_keeps(s, -1);
    } else if binds(kb.redo, key, alt, ctrl) {
        lemma_walk_keeps(s, 1);
    } else if binds(kb.close, key, alt, ctrl) {
        if let Some(g) = s.focused {
            lemma_close_keeps(s, g);
        }
    }
}

/// A release keeps a layout reload-stable: a drop re-homes tiles that already fit the view, and a
/// tab click only changes which tab is active.
pub proof fn lemma_release_keeps(s: StateView)
    requires
        state_inv(s),
        reload_stable(s),
        drag_ok(s),
    ensures
        reload_stable(release_step(s)),
{
    let cs = s.grid.cells;
    let cols = s.cols;
    lemma_stable_layout(s);
    if let Some(d) = s.drag {
        if d.armed {
            if let Some(t) = d.target {
                if !drop_is_noop(s.grid, d.source, t) {
                    lemma_detach(s.grid, d.source, t);
                    let dt = detach(s.grid, d.source);
                    match t {
                        DropTarget::Tab { group, index } => {
                            lemma_detach_stable(s.grid, d.source, 0, 0, cols);
                            lemma_locate_from(dt.cells, group, 0);
                            let k = locate(dt.cells, group).unwrap();
                            let dst = dt.cells[k];
                            let at = min_int(index as int, dst.group.tabs.len() as int);
                            let u = dt.cells.update(k, CellView { group: insert_tabs(dst.group, dt.group.tabs, at), ..dst });
                            assert forall|j: int| 0 <= j < u.len() implies (#[trigger] u[j]).h >= 1 && cell_fits(u[j], cols as int) by {
                                if j != k {
                                    assert(u[j] == dt.cells[j]);
                                } else {
                                    lemma_fits_shape(u[j], dt.cells[j], cols as int);
                                }
                            }
                            lemma_total_h_update(dt.cells, k, u[k]);
                            lemma_gravity_stable(u, None, cols as int);
                        },
                        DropTarget::Displace { x, y } => {
                            lemma_detach_stable(s.grid, d.source, x, y, cols);
                            let c = landed(dt, clamp_x(x, cols, dt.w), y);
                            let u = dt.cells.push(c);
                            lemma_pushed_stable(dt.cells, c, cols as int);
                            lemma_total_h_push(dt.cells, c);
                            lemma_gravity_stable(u, Some(dt.cells.len() as usize), cols as int);
                        },
                        DropTarget::Pack { x } => {
                            let x2 = clamp_x(x, cols, dt.w);
                            let y2 = rest_height(dt.cells, x2 as int, dt.w as int) as u32;
                            lemma_detach_stable(s.grid, d.source, x, y2, cols);
                            let c = landed(dt, x2, y2);
                            let u = dt.cells.push(c);
                            lemma_pushed_stable(dt.cells, c, cols as int);
                            lemma_total_h_push(dt.cells, c);
                            lemma_gravity_stable(u, None, cols as int);
                        },
                    }
                }
            }
        } else if let DragSourceView::Tab { panel, from } = d.source {
            if let Some(i) = locate(cs, from) {
                if let Some(k) = first_pos(cs[i].group.tabs, panel) {
                    lemma_locate_from(cs, from, 0);
                    let c = cs[i];
                    lemma_stable_regroup(cs, cols as int, i, CellView { group: GroupView { active: k, ..c.group }, ..c });
                }
            }
        }
    }
}

/// A tall tile that fits, added to tall tiles that fit, leaves them all so.
proof fn lemma_pushed_stable(cs: Seq<CellView>, c: CellView, cols: int)
    requires
        tall(cs),
        fits_all(cs, cols),
        c.h >= 1,
        cell_fits(c, cols),
    ensures
        tall(cs.push(c)),
        fits_all(cs.push(c), cols),
{
    let u = cs.push(c);
    assert forall|j: int| 0 <= j < u.len() implies (#[trigger] u[j]).h >= 1 && cell_fits(u[j], cols) by {
        if j < cs.len() {
            assert(u[j] == cs[j]);
        }
    }
}

/// Wiping the layout keeps the reducer reload-stable: the empty layout reflows into any view as
/// it is.
pub proof fn lemma_reset_keeps(s: StateView, g: GridView)
    requires
        reload_stable(s),
        g.cells.len() == 0,
    ensures
        reload_stable(StateView { grid: g, focused: None, maximized: None, ..s }),
{
    lemma_empty_stable(s.cols as int);
    assert(g.cells =~= Seq::<CellView>::empty());
}

/// A fresh reducer, with an empty layout and no history, is reload-stable.
pub proof fn lemma_fresh_stable(s: StateView)
    requires
        s.grid.cells.len() == 0,
        s.history.len() == 0,
    ensures
        reload_stable(s),
{
    lemma_empty_stable(s.cols as int);
    assert(s.grid.cells =~= Seq::<CellView>::empty());
}

} // verus!
