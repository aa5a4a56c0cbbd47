//! Laws relating several operations of the layout model and the reducer.

use vstd::prelude::*;

use crate::config::{binds, breakpoint_of, design_of};
use crate::model::layout::{
    lemma_settle_ignores_rows, lemma_settle_packed, lemma_sort_prefix_perm, packed, same_but_y, settle,
    sorted_order, total_h,
};
use crate::model::packed::{
    lemma_total_h_same_heights, refit_cell, refit_keys, refit_spec, CellView, DragSourceView, GridView,
};
use crate::model::distinct::{
    count, id_count, lemma_count_le_len, lemma_count_members, lemma_count_same, lemma_drop_distinct,
    lemma_groups_gravity, lemma_host_le_occ, occ_all, source_listed,
};
use crate::model::packed::{
    clamp_x, detach, drop_is_noop, drop_ok, drop_spec, insert_tabs, landed, lemma_detach, lemma_locate_from, lemma_total_h_push,
    locate, min_int, pack_best, pack_spec, sat_sub, source_group, target_spec, DropTarget,
};
use crate::model::group::{first_pos, group_without, lemma_first_pos_from};
use crate::model::layout::{lemma_total_h_update, rest_height};
use crate::model::{GroupId, PanelId};
use crate::reload::reload_stable;
use crate::state::{
    capture_step, cell_slots, walk, drag_move_step, drag_ok, drop_flags, fires, frame_ok, ghost_hidden, key_step, latched,
    layout_ok, loaded, measure_step, measured_cols, preview_spec, pressed, release_step, shown, slot_place, slots,
    slotted, state_inv, wants_snapshot, Frame, SlotPlace, StateView,
};
use crate::unique::unique;

verus! {

/// A tile's reflow depends only on what it wants, and a reflow keeps what it wants: reflowing an
/// already reflowed tile is the same as reflowing the tile it came from.
pub proof fn lemma_refit_cell_twice(c: CellView, a: int, b: int)
    requires
        1 <= a <= u32::MAX,
        1 <= b <= u32::MAX,
    ensures
        refit_cell(refit_cell(c, a), b) == refit_cell(c, b),
{
}

/// Reflow is path-independent: reflowing into `a` columns and then into `b` gives exactly the grid
/// that reflowing the starting grid into `b` gives. In particular a band change and back restores the
/// layout a reflow produced.
pub proof fn law_refit_round_trip(cs: Seq<CellView>, a: int, b: int)
    requires
        1 <= a <= u32::MAX,
        1 <= b <= u32::MAX,
        cs.len() <= usize::MAX,
        total_h(cs) <= u32::MAX,
    ensures
        refit_spec(refit_spec(cs, a), b) == refit_spec(cs, b),
{
    let ma = cs.map_values(|c: CellView| refit_cell(c, a));
    let mb = cs.map_values(|c: CellView| refit_cell(c, b));
    let keys = refit_keys(cs);
    let o = sorted_order(keys);
    lemma_sort_prefix_perm(keys, cs.len() as int);
    assert forall|i: int| 0 <= i < ma.len() implies #[trigger] ma[i].h == cs[i].h by {}
    lemma_total_h_same_heights(ma, cs);
    lemma_settle_packed(ma, o);
    let r1 = settle(ma, o);
    assert(refit_keys(r1) =~= keys) by {
        assert forall|i: int| 0 <= i < cs.len() implies #[trigger] r1[i].rank == cs[i].rank by {
            assert(same_but_y(r1[i], ma[i]));
        }
    }
    let mb1 = r1.map_values(|c: CellView| refit_cell(c, b));
    assert forall|i: int| 0 <= i < mb1.len() implies same_but_y(#[trigger] mb1[i], mb[i]) by {
        assert(same_but_y(r1[i], ma[i]));
        lemma_refit_cell_twice(cs[i], a, b);
        assert(r1[i] == CellView { y: r1[i].y, ..refit_cell(cs[i], a) });
    }
    lemma_settle_ignores_rows(mb1, mb, o);
}

/// Reflowing into the column count a layout was just reflowed into changes nothing, so a layout
/// reloaded into the view it was saved from comes back as it was.
pub proof fn law_reflow_idempotent(cs: Seq<CellView>, c: int)
    requires
        1 <= c <= u32::MAX,
        cs.len() <= usize::MAX,
        total_h(cs) <= u32::MAX,
    ensures
        refit_spec(refit_spec(cs, c), c) == refit_spec(cs, c),
{
    law_refit_round_trip(cs, c, c);
}

/// A measured column count is at least one and at most the configured count (or one).
pub proof fn lemma_measured_cols(s: StateView, w: u64)
    ensures
        1 <= measured_cols(s, w) <= if s.cfg.steps >= 1 { s.cfg.steps as int } else { 1 },
{
    let base: int = if s.cfg.steps >= 1 {
        s.cfg.steps as int
    } else {
        1
    };
    let d = design_of(breakpoint_of(w as int));
    assert((base * d + 800) / 1600 <= base) by (nonlinear_arith)
        requires
            1 <= base,
            d <= 1600,
            0 <= d,
    {
    }
    assert(0 <= (base * d + 800) / 1600) by (nonlinear_arith)
        requires
            1 <= base,
            0 <= d,
    {
    }
}

/// Measuring the same width twice is the same as measuring it once.
pub proof fn law_measure_idempotent(s: StateView, w: u64)
    ensures
        measure_step(measure_step(s, w), w) == measure_step(s, w),
{
}

/// The layout after two measures depends only on the last one, unless the last one lands back on
/// the column count the layout started from: a band change that ends in another band reflows
/// exactly as a direct change would.
pub proof fn law_measure_path_independent(s: StateView, a: u64, b: u64)
    requires
        state_inv(s),
        s.grid.cells.len() <= usize::MAX,
        measured_cols(s, b) != s.cols,
    ensures
        measure_step(measure_step(s, a), b).grid == measure_step(s, b).grid,
{
    let s1 = measure_step(s, a);
    let ca = measured_cols(s, a);
    let cb = measured_cols(s, b);
    lemma_measured_cols(s, a);
    lemma_measured_cols(s, b);
    assert(measured_cols(s1, b) == cb);
    if ca != s.cols && cb != ca {
        law_refit_round_trip(s.grid.cells, ca as int, cb as int);
    }
}

/// Measuring a width of another band and then one of the starting band brings the arrangement
/// back: exactly the layout reflowed into its own column count, which is the layout itself for a
/// reload-stable reducer (a fresh one, and any its operations kept so).
pub proof fn law_measure_away_and_back(s: StateView, a: u64, b: u64)
    requires
        state_inv(s),
        s.grid.cells.len() <= usize::MAX,
        measured_cols(s, a) != s.cols,
        measured_cols(s, b) == s.cols,
    ensures
        measure_step(measure_step(s, a), b).grid == (GridView {
            cells: refit_spec(s.grid.cells, s.cols as int),
            ..s.grid
        }),
        reload_stable(s) ==> measure_step(measure_step(s, a), b).grid == s.grid,
{
    let ca = measured_cols(s, a);
    lemma_measured_cols(s, a);
    assert(measured_cols(measure_step(s, a), b) == s.cols);
    law_refit_round_trip(s.grid.cells, ca as int, s.cols as int);
}

/// The state after the container is measured at each width of `ws` in turn.
pub open spec fn measures(s: StateView, ws: Seq<u64>) -> StateView
    decreases ws.len(),
{
    if ws.len() == 0 {
        s
    } else {
        measure_step(measures(s, ws.drop_last()), ws.last())
    }
}

/// After measures alone, a layout that is some grid `base` reflowed into the current column count
/// stays `base` reflowed into whatever column count the measures end on.
proof fn lemma_measures(s: StateView, base: Seq<CellView>, ws: Seq<u64>)
    requires
        s.cols >= 1,
        base.len() <= usize::MAX,
        total_h(base) <= u32::MAX,
        s.grid.cells == refit_spec(base, s.cols as int),
    ensures
        measures(s, ws).grid == (GridView { cells: refit_spec(base, measures(s, ws).cols as int), ..s.grid }),
        measures(s, ws).cfg == s.cfg,
        measures(s, ws).cols >= 1,
    decreases ws.len(),
{
    if ws.len() > 0 {
        let q = measures(s, ws.drop_last());
        lemma_measures(s, base, ws.drop_last());
        lemma_measured_cols(q, ws.last());
        let c = measured_cols(q, ws.last());
        if c != q.cols {
            law_refit_round_trip(base, q.cols as int, c as int);
        }
    }
}

/// However many container resizes come in between, measuring back to a width of the starting
/// band leaves a layout that reflows into its own view unchanged exactly as it was: a resize away
/// and back leaves no lasting change. (A reload-stable reducer's layout is such a layout.)
pub proof fn law_measures_come_back(s: StateView, ws: Seq<u64>, b: u64)
    requires
        state_inv(s),
        s.grid.cells.len() <= usize::MAX,
        refit_spec(s.grid.cells, s.cols as int) == s.grid.cells,
        measured_cols(s, b) == s.cols,
    ensures
        measures(s, ws.push(b)).grid == s.grid,
{
    lemma_measures(s, s.grid.cells, ws.push(b));
    assert(ws.push(b).drop_last() =~= ws);
    lemma_measures(s, s.grid.cells, ws);
    assert(measures(s, ws.push(b)).cols == s.cols);
}

/// A measure that changes the column count, then any further measures, then one back into the
/// same column count: the layout is exactly what the first measure left, whatever layout it
/// started from.
pub proof fn law_measure_returns(s: StateView, a: u64, ws: Seq<u64>, b: u64)
    requires
        state_inv(s),
        s.grid.cells.len() <= usize::MAX,
        measured_cols(s, a) != s.cols,
        measured_cols(s, b) == measured_cols(s, a),
    ensures
        measures(measure_step(s, a), ws.push(b)).grid == measure_step(s, a).grid,
{
    let t = measure_step(s, a);
    lemma_measured_cols(s, a);
    lemma_measures(t, s.grid.cells, ws.push(b));
    assert(ws.push(b).drop_last() =~= ws);
    lemma_measures(t, s.grid.cells, ws);
    assert(measures(t, ws.push(b)).cols == t.cols);
}

/// Loading what was saved gives back the layout reflowed into the live view, which is the layout
/// itself for a reload-stable reducer (a fresh one, and any its operations kept so).
pub proof fn law_reload_reproduces_layout(s: StateView)
    requires
        state_inv(s),
    ensures
        loaded(s, s.grid).grid == (GridView { cells: refit_spec(s.grid.cells, s.cols as int), ..s.grid }),
        reload_stable(s) ==> loaded(s, s.grid).grid == s.grid,
{
}

/// The first-measure latch fires at most once: polled again right after, it stays quiet.
pub proof fn law_ready_once(s: StateView)
    ensures
        !fires(latched(s)),
{
}

/// Pressing, moving a press or drag, and refining its slot never touch the layout: only a
/// release does.
pub proof fn law_gestures_keep_layout(
    s: StateView,
    source: DragSourceView,
    beyond: bool,
    col: u32,
    row: u32,
    hit: Option<(usize, bool)>,
    index: usize,
)
    ensures
        pressed(s, source).grid == s.grid,
        drag_move_step(s, beyond, col, row, hit).grid == s.grid,
        slotted(s, index).grid == s.grid,
{
}

/// A release commits exactly the layout the armed drag was previewing.
pub proof fn law_release_commits_preview(s: StateView)
    requires
        s.drag matches Some(d) && d.armed,
    ensures
        release_step(s).grid == preview_spec(s),
        release_step(s).drag is None,
{
}

/// Keys other than undo, redo and close leave the layout and its history alone: maximize, the
/// hint, Escape and the inspect boxes are view state only.
pub proof fn law_view_keys_keep_layout(s: StateView, key: Seq<char>, alt: bool, ctrl: bool, hit: Option<GroupId>)
    requires
        !binds(s.cfg.keybinds.undo, key, alt, ctrl),
        !binds(s.cfg.keybinds.redo, key, alt, ctrl),
        !binds(s.cfg.keybinds.close, key, alt, ctrl),
    ensures
        key_step(s, key, alt, ctrl, hit).0.grid == s.grid,
        key_step(s, key, alt, ctrl, hit).0.history == s.history,
        key_step(s, key, alt, ctrl, hit).0.cursor == s.cursor,
{
}

/// Undo then redo comes back to the snapshot under the cursor, reflowed into the live view, with
/// the cursor where it was.
pub proof fn law_undo_redo(s: StateView, hit: Option<GroupId>)
    requires
        1 <= s.cursor < s.history.len(),
        s.cfg.keybinds.undo.key@ != "Escape"@,
        s.cfg.keybinds.redo.key@ != "Escape"@,
        !binds(
            s.cfg.keybinds.undo,
            s.cfg.keybinds.redo.key@,
            s.cfg.keybinds.redo.alt,
            s.cfg.keybinds.redo.ctrl,
        ),
    ensures
        ({
            let u = s.cfg.keybinds.undo;
            let r = s.cfg.keybinds.redo;
            let s1 = key_step(s, u.key@, u.alt, u.ctrl, hit).0;
            let s2 = key_step(s1, r.key@, r.alt, r.ctrl, hit).0;
            &&& s1.grid == (GridView {
                cells: refit_spec(s.history[s.cursor - 1].cells, s.cols as int),
                ..s.history[s.cursor - 1]
            })
            &&& s2.grid == (GridView {
                cells: refit_spec(s.history[s.cursor].cells, s.cols as int),
                ..s.history[s.cursor]
            })
            &&& s2.cursor == s.cursor
            &&& s2.history == s.history
        }),
{
}

/// Undo restores the layout captured before an edit: snapshot a layout, change it, snapshot the
/// change, and the undo chord brings the first layout back, reflowed into the live view.
pub proof fn law_undo_restores_capture(s: StateView, edited: GridView, hit: Option<GroupId>)
    requires
        state_inv(s),
        wants_snapshot(s),
        wants_snapshot(StateView { grid: edited, ..capture_step(s) }),
        s.cfg.keybinds.undo.key@ != "Escape"@,
    ensures
        ({
            let u = s.cfg.keybinds.undo;
            key_step(capture_step(StateView { grid: edited, ..capture_step(s) }), u.key@, u.alt, u.ctrl, hit).0.grid
                == (GridView { cells: refit_spec(s.grid.cells, s.cols as int), ..s.grid })
        }),
{
    let s1 = capture_step(s);
    let h1 = s1.history;
    assert(h1[s1.cursor] == s.grid);
    let s2 = StateView { grid: edited, ..s1 };
    let s3 = capture_step(s2);
    assert(h1.take(s1.cursor + 1) =~= h1);
    assert(s3.history[s3.cursor - 1] == s.grid);
}

/// The layout a sound reducer holds, and every snapshot in its undo history, has no overlapping
/// and no floating tiles, whatever sequence of operations produced it: every operation keeps the
/// invariant.
pub proof fn law_layout_packed(s: StateView)
    requires
        state_inv(s),
    ensures
        packed(s.grid.cells),
        forall|i: int| 0 <= i < s.history.len() ==> packed(#[trigger] s.history[i].cells),
{
    assert forall|i: int| 0 <= i < s.history.len() implies packed(#[trigger] s.history[i].cells) by {
        assert(layout_ok(s.history[i]));
    }
}

/// With no pane maximized, every tile renders.
proof fn lemma_shown_all(p: Seq<CellView>, n: int)
    requires
        0 <= n,
    ensures
        shown(p, None, n).len() == n,
        forall|q: int| 0 <= q < n ==> #[trigger] shown(p, None, n)[q] == q,
    decreases n,
{
    if n > 0 {
        lemma_shown_all(p, n - 1);
    }
}

/// Each overlay slot comes from one tab of one tile.
proof fn lemma_slot_origin(s: StateView, p: Seq<CellView>, n: int, k: int) -> (ij: (int, int))
    requires
        0 <= n <= p.len(),
        0 <= k < slots(s, p, n).len(),
    ensures
        0 <= ij.0 < n,
        0 <= ij.1 < p[ij.0].group.tabs.len(),
        slots(s, p, n)[k] == cell_slots(s, ghost_hidden(s, p), p[ij.0])[ij.1],
    decreases n,
{
    let prev = slots(s, p, n - 1);
    let row = cell_slots(s, ghost_hidden(s, p), p[n - 1]);
    assert(slots(s, p, n) == prev + row);
    if k < prev.len() {
        lemma_slot_origin(s, p, n - 1, k)
    } else {
        (n - 1, k - prev.len())
    }
}

/// The skeleton and the content overlay are positioned from the same tiles: every panel the
/// overlay shows over a tile body sits exactly on the rectangle of a rendered tile of its own
/// group.
pub proof fn law_slots_sit_on_frames(s: StateView, p: Seq<CellView>, k: int) -> (q: int)
    requires
        0 <= k < slots(s, p, p.len() as int).len(),
        slots(s, p, p.len() as int)[k].1 is Rect,
    ensures
        0 <= q < shown(p, s.maximized, p.len() as int).len(),
        p[shown(p, s.maximized, p.len() as int)[q]].group.id == slots(s, p, p.len() as int)[k].2,
        slots(s, p, p.len() as int)[k].1 == (SlotPlace::Rect {
            x: p[shown(p, s.maximized, p.len() as int)[q]].x,
            y: p[shown(p, s.maximized, p.len() as int)[q]].y,
            w: p[shown(p, s.maximized, p.len() as int)[q]].w,
            h: p[shown(p, s.maximized, p.len() as int)[q]].h,
        }),
{
    let n = p.len() as int;
    let (i, j) = lemma_slot_origin(s, p, n, k);
    let c = p[i];
    let hid = ghost_hidden(s, p);
    assert(slots(s, p, n)[k] == (
        c.group.tabs[j],
        slot_place(s.maximized, c, c.group.tabs[j] == c.group.tabs[c.group.active], hid.contains(c.group.tabs[j])),
        c.group.id,
    ));
    assert(s.maximized is None);
    lemma_shown_all(p, n);
    i
}

/// Whether tile `c` of the preview carries drop feedback: the landing shadow or the join header.
pub open spec fn marked(s: StateView, c: CellView) -> bool {
    drop_flags(s, c).0 || drop_flags(s, c).1
}

/// While a drag is armed, exactly one tile of its preview carries drop feedback: the landing
/// shadow of what it carries, or the header of the pane it joins. This holds whenever the
/// identities are distinct, the drop may run its full path (its source is in the grid) and a torn
/// tab is still listed in its strip.
pub proof fn law_one_landing_hint(s: StateView)
    requires
        state_inv(s),
        unique(s),
        drag_ok(s),
        s.grid.cells.len() < usize::MAX,
        s.drag matches Some(d) && d.armed && d.target is Some && source_listed(s.grid, d.source) && drop_ok(
            s.grid,
            d.source,
            d.target.unwrap(),
        ),
    ensures
        count(preview_spec(s).cells, |c: CellView| marked(s, c)) == 1,
{
    let d = s.drag.unwrap();
    let t = d.target.unwrap();
    let g = s.grid;
    let src = d.source;
    let cols = s.cols;
    let p = preview_spec(s).cells;
    let f = |c: CellView| marked(s, c);
    lemma_detach(g, src, t);
    lemma_drop_distinct(g, src, t, cols);
    let dt = detach(g, src);
    match t {
        DropTarget::Tab { group, index } => {
            let h = |c: CellView| c.group.id == group;
            lemma_count_same(p, p, f, h);
            assert(id_count(p, group) <= 1);
            if drop_is_noop(g, src, t) {
                lemma_locate_from(g.cells, group, 0);
                let i = locate(g.cells, group).unwrap();
                lemma_count_members(p, h, i, i);
            } else {
                lemma_locate_from(dt.cells, group, 0);
                let k = locate(dt.cells, group).unwrap();
                let dst = dt.cells[k];
                let at = min_int(index as int, dst.group.tabs.len() as int);
                let y = dt.cells.update(k, CellView { group: insert_tabs(dst.group, dt.group.tabs, at), ..dst });
                lemma_total_h_update(dt.cells, k, y[k]);
                lemma_groups_gravity(y, None);
                lemma_count_members(p, h, k, k);
            }
        },
        _ => {
            lemma_locate_from(g.cells, source_group(src), 0);
            let y = match t {
                DropTarget::Displace { x, y } => dt.cells.push(landed(dt, clamp_x(x, cols, dt.w), y)),
                _ => {
                    let x2 = clamp_x(t->Pack_x, cols, dt.w);
                    dt.cells.push(landed(dt, x2, rest_height(dt.cells, x2 as int, dt.w as int) as u32))
                },
            };
            let pin = match t {
                DropTarget::Displace { .. } => Some(dt.cells.len() as usize),
                _ => None,
            };
            lemma_total_h_push(dt.cells, y[dt.cells.len() as int]);
            assert(y.drop_last() =~= dt.cells);
            lemma_groups_gravity(y, pin);
            let last = dt.cells.len() as int;
            assert(p[last].group == dt.group);
            match src {
                DragSourceView::Tile(gs) => {
                    let h = |c: CellView| c.group.id == gs;
                    lemma_count_same(p, p, f, h);
                    assert(id_count(p, gs) <= 1);
                    lemma_count_members(p, h, last, last);
                },
                DragSourceView::Tab { panel, .. } => {
                    let h = |c: CellView| c.group.tabs.contains(panel);
                    lemma_count_same(p, p, f, h);
                    lemma_host_le_occ(p, panel);
                    assert(occ_all(p, panel) <= 1);
                    assert(dt.group.tabs[0] == panel);
                    lemma_count_members(p, h, last, last);
                },
            }
        },
    }
}

/// A maximized pane renders alone: the skeleton draws as many frames as tiles host that pane.
proof fn lemma_shown_max(p: Seq<CellView>, m: GroupId, n: int)
    requires
        0 <= n <= p.len(),
    ensures
        shown(p, Some(m), n).len() == count(p.take(n), |c: CellView| c.group.id == m),
    decreases n,
{
    if n > 0 {
        lemma_shown_max(p, m, n - 1);
        assert(p.take(n).drop_last() =~= p.take(n - 1));
        assert(p.take(n).last() == p[n - 1]);
    } else {
        assert(p.take(0).len() == 0);
    }
}

/// The skeleton shows it: an armed drag's skeleton draws at most one frame as the landing shadow
/// or the join header, and exactly one when no pane is maximized (a maximized pane renders alone,
/// so the feedback may belong to a tile that is not drawn).
pub proof fn law_one_landing_frame(s: StateView, fs: Seq<Frame>, titles: Seq<(PanelId, String)>)
    requires
        state_inv(s),
        unique(s),
        drag_ok(s),
        s.grid.cells.len() < usize::MAX,
        s.drag matches Some(d) && d.armed && d.target is Some && source_listed(s.grid, d.source) && drop_ok(
            s.grid,
            d.source,
            d.target.unwrap(),
        ),
        fs.len() == shown(preview_spec(s).cells, s.maximized, preview_spec(s).cells.len() as int).len(),
        forall|k: int|
            0 <= k < fs.len() ==> frame_ok(
                #[trigger] fs[k],
                s,
                preview_spec(s).cells,
                shown(preview_spec(s).cells, s.maximized, preview_spec(s).cells.len() as int)[k],
                titles,
            ),
    ensures
        count(fs, |f: Frame| f.shadow || f.tab_drop) <= 1,
        s.maximized is None ==> count(fs, |f: Frame| f.shadow || f.tab_drop) == 1,
{
    let p = preview_spec(s).cells;
    let d = s.drag.unwrap();
    lemma_detach(s.grid, d.source, d.target.unwrap());
    lemma_drop_distinct(s.grid, d.source, d.target.unwrap(), s.cols);
    match s.maximized {
        None => {
            lemma_shown_all(p, p.len() as int);
            law_one_landing_hint(s);
            assert forall|k: int| 0 <= k < fs.len() implies (|f: Frame| f.shadow || f.tab_drop)(#[trigger] fs[k])
                == (|c: CellView| marked(s, c))(p[k]) by {
                assert(frame_ok(fs[k], s, p, k, titles));
            }
            lemma_count_same(fs, p, |f: Frame| f.shadow || f.tab_drop, |c: CellView| marked(s, c));
        },
        Some(m) => {
            lemma_shown_max(p, m, p.len() as int);
            assert(p.take(p.len() as int) =~= p);
            assert(id_count(p, m) <= 1);
            lemma_count_le_len(fs, |f: Frame| f.shadow || f.tab_drop);
        },
    }
}

// ------------------------------------------------------------------ what the operations are for

/// The left edge a tile asks for: the one a narrower view made it give up, else its own.
pub open spec fn wanted_x(c: CellView) -> int {
    match c.desired_x {
        Some(v) => v as int,
        None => c.x as int,
    }
}

/// The width a tile asks for: the one a narrower view made it give up, else its own.
pub open spec fn wanted_w(c: CellView) -> int {
    match c.desired_w {
        Some(v) => v as int,
        None => c.w as int,
    }
}

/// A reflow moves a tile left only as far as it must to fit: every reflowed tile ends within the
/// view, never right of the left edge it asks for, and either at that edge or flush with the
/// view's right border. Its width is the one it asks for, unless that exceeds the view (then the
/// view's width) or falls below its minimum (then the minimum, capped at the view, and at least
/// one step). What it had to give up is remembered, and only that.
pub proof fn law_refit_moves_left_only_as_needed(cs: Seq<CellView>, cols: int)
    requires
        1 <= cols <= u32::MAX,
        cs.len() <= usize::MAX,
        total_h(cs) <= u32::MAX,
    ensures
        refit_spec(cs, cols).len() == cs.len(),
        forall|i: int|
            0 <= i < cs.len() ==> {
                let r = #[trigger] refit_spec(cs, cols)[i];
                let c = cs[i];
                let floor = if c.min_w as int <= cols {
                    if c.min_w >= 1 { c.min_w as int } else { 1 }
                } else {
                    cols
                };
                &&& r.x + r.w <= cols
                &&& r.x <= wanted_x(c)
                &&& r.x == wanted_x(c) || r.x + r.w == cols
                &&& floor <= r.w <= cols
                &&& (r.w == wanted_w(c) || (r.w == cols && wanted_w(c) > cols) || (r.w == floor && wanted_w(c) < floor))
                &&& (r.desired_x is None <==> r.x == wanted_x(c))
                &&& (r.desired_x is Some ==> r.desired_x.unwrap() == wanted_x(c))
                &&& (r.desired_w is None <==> r.w == wanted_w(c))
                &&& (r.desired_w is Some ==> r.desired_w.unwrap() == wanted_w(c))
                &&& r.h == c.h && r.group == c.group && r.rank == c.rank
            },
{
    let m = cs.map_values(|x: CellView| refit_cell(x, cols));
    let o = sorted_order(refit_keys(cs));
    lemma_sort_prefix_perm(refit_keys(cs), cs.len() as int);
    assert forall|j: int| 0 <= j < m.len() implies #[trigger] m[j].h == cs[j].h by {}
    lemma_total_h_same_heights(m, cs);
    lemma_settle_packed(m, o);
    assert forall|i: int| 0 <= i < cs.len() implies {
        let r = #[trigger] refit_spec(cs, cols)[i];
        let c = cs[i];
        let floor = if c.min_w as int <= cols {
            if c.min_w >= 1 { c.min_w as int } else { 1 }
        } else {
            cols
        };
        &&& r.x + r.w <= cols
        &&& r.x <= wanted_x(c)
        &&& r.x == wanted_x(c) || r.x + r.w == cols
        &&& floor <= r.w <= cols
        &&& (r.w == wanted_w(c) || (r.w == cols && wanted_w(c) > cols) || (r.w == floor && wanted_w(c) < floor))
        &&& (r.desired_x is None <==> r.x == wanted_x(c))
        &&& (r.desired_x is Some ==> r.desired_x.unwrap() == wanted_x(c))
        &&& (r.desired_w is None <==> r.w == wanted_w(c))
        &&& (r.desired_w is Some ==> r.desired_w.unwrap() == wanted_w(c))
        &&& r.h == c.h && r.group == c.group && r.rank == c.rank
    } by {
        assert(same_but_y(settle(m, o)[i], m[i]));
        assert(m[i] == refit_cell(cs[i], cols));
    }
}

proof fn lemma_pack_best_lowest(cs: Seq<CellView>, w: int, n: int)
    requires
        n >= 1,
    ensures
        0 <= pack_best(cs, w, n).0 < n,
        pack_best(cs, w, n).1 == rest_height(cs, pack_best(cs, w, n).0, w),
        forall|x: int| 0 <= x < n ==> pack_best(cs, w, n).1 <= #[trigger] rest_height(cs, x, w),
        forall|x: int| 0 <= x < pack_best(cs, w, n).0 ==> pack_best(cs, w, n).1 < #[trigger] rest_height(cs, x, w),
    decreases n,
{
    if n > 1 {
        lemma_pack_best_lowest(cs, w, n - 1);
    }
}

/// Auto-packing picks the spot that grows the stack least: among every left edge that keeps the
/// tile inside the view, from the first column to the last one that fits, the chosen one rests
/// lowest on the skyline, and no edge left of it rests as low. The tile sits on the skyline there.
pub proof fn law_pack_lowest_then_leftmost(cs: Seq<CellView>, w: int, cols: int)
    requires
        0 <= w,
    ensures
        0 <= pack_spec(cs, w, cols).0,
        w <= cols ==> pack_spec(cs, w, cols).0 + w <= cols,
        pack_spec(cs, w, cols).1 == rest_height(cs, pack_spec(cs, w, cols).0, w),
        forall|x: int| 0 <= x && x + w <= cols ==> pack_spec(cs, w, cols).1 <= #[trigger] rest_height(cs, x, w),
        forall|x: int| 0 <= x < pack_spec(cs, w, cols).0 ==> pack_spec(cs, w, cols).1 < #[trigger] rest_height(cs, x, w),
{
    lemma_pack_best_lowest(cs, w, sat_sub(cols, w) + 1);
}

/// Taking a snapshot drops any redo branch: the history keeps exactly the snapshots up to and
/// including the one the cursor was on, then the layout, and the cursor moves onto it. So nothing
/// is left to redo, and undo right after lands on the snapshot the cursor was on, reflowed into the
/// live view, not on a layout that had already been undone.
pub proof fn law_capture_drops_redo(s: StateView)
    requires
        state_inv(s),
        wants_snapshot(s),
    ensures
        capture_step(s).history.len() == if s.history.len() > 0 {
            s.cursor + 2
        } else {
            1
        },
        forall|i: int| 0 <= i < capture_step(s).history.len() - 1 ==> #[trigger] capture_step(s).history[i] == s.history[i],
        capture_step(s).history[capture_step(s).history.len() - 1] == s.grid,
        capture_step(s).cursor == capture_step(s).history.len() - 1,
        walk(capture_step(s), 1) == capture_step(s),
        s.history.len() > 0 ==> walk(capture_step(s), -1).grid == (GridView {
            cells: refit_spec(s.history[s.cursor].cells, s.cols as int),
            ..s.history[s.cursor]
        }),
{
    let t = capture_step(s);
    if s.history.len() > 0 {
        assert(t.history[s.cursor] == s.history[s.cursor]);
    }
}

/// Dropping a tab on the header of its own multi-tab strip reorders that strip: the tile keeps its
/// place and its group, its strip is the old one with the tab taken out and put back at the
/// requested slot (capped at the end of what is left), the tab is active, and no tile appears or
/// disappears.
pub proof fn law_tab_reorders_own_strip(g: GridView, panel: Seq<char>, from: GroupId, index: usize, cols: u32)
    requires
        drop_ok(g, DragSourceView::Tab { panel, from }, DropTarget::Tab { group: from, index }),
        locate(g.cells, from) matches Some(i) && g.cells[i].group.tabs.len() > 1 && g.cells[i].group.tabs.contains(
            panel,
        ),
        g.cells.len() <= usize::MAX,
    ensures
        ({
            let i = locate(g.cells, from).unwrap();
            let r = drop_spec(g, DragSourceView::Tab { panel, from }, DropTarget::Tab { group: from, index }, cols).cells;
            let rest = group_without(g.cells[i].group, panel).tabs;
            let at = min_int(index as int, rest.len() as int);
            &&& rest.len() == g.cells[i].group.tabs.len() - 1
            &&& r.len() == g.cells.len()
            &&& r[i].group.id == from
            &&& r[i].group.tabs == rest.insert(at, panel)
            &&& r[i].group.active == at
        }),
{
    let src = DragSourceView::Tab { panel, from };
    let t = DropTarget::Tab { group: from, index };
    let cs = g.cells;
    lemma_locate_from(cs, from, 0);
    let i = locate(cs, from).unwrap();
    let c = cs[i];
    lemma_first_pos_from(c.group.tabs, panel, 0);
    let k0 = choose|k: int| 0 <= k < c.group.tabs.len() && c.group.tabs[k] == panel;
    if first_pos(c.group.tabs, panel) is None {
        assert(c.group.tabs[k0] != panel);
    }
    let rg = group_without(c.group, panel);
    let rest = rg.tabs;
    assert(rest.len() == c.group.tabs.len() - 1);
    assert(!drop_is_noop(g, src, t));
    lemma_detach(g, src, t);
    let d = detach(g, src);
    assert(d.cells == cs.update(i, CellView { group: rg, ..c }));
    lemma_locate_from(d.cells, from, 0);
    let k = locate(d.cells, from).unwrap();
    if k < i {
        assert(d.cells[k] == cs[k]);
    }
    if i < k {
        assert(d.cells[i].group.id == from);
    }
    assert(k == i);
    let dst = d.cells[i];
    let at = min_int(index as int, dst.group.tabs.len() as int);
    let nc = CellView { group: insert_tabs(dst.group, d.group.tabs, at), ..dst };
    let y = d.cells.update(i, nc);
    lemma_total_h_update(d.cells, i, nc);
    lemma_groups_gravity(y, None);
    assert(d.group.tabs == seq![panel]);
    assert(rest.take(at) + seq![panel] + rest.skip(at) =~= rest.insert(at, panel));
}

/// A pointer on a tile's header joins that tile's strip, at its end, unless the drag carries that
/// very tile or the lone tab of it (a drop there could only put it back): so a tab aimed at the
/// header of its own multi-tab strip joins it and can be reordered. Aimed at its own tile or lone
/// tab's header, the drag moves instead, landing right below that tile at the dragged block's
/// column.
pub proof fn law_header_hit_joins(
    cs: Seq<CellView>,
    src: DragSourceView,
    col: u32,
    row: u32,
    i: usize,
    cols: u32,
    src_w: u32,
)
    requires
        i < cs.len(),
        locate(cs, source_group(src)) is Some,
    ensures
        ({
            let c = cs[i as int];
            let own = c.group.id == source_group(src);
            let lone = cs[locate(cs, source_group(src)).unwrap()].group.tabs.len() <= 1;
            let t = target_spec(cs, src, col, row, Some((i, true)), cols, src_w);
            &&& (!own || (src is Tab && !lone)) ==> t == DropTarget::Tab {
                group: c.group.id,
                index: c.group.tabs.len() as usize,
            }
            &&& (own && (src is Tile || lone)) ==> t == DropTarget::Displace {
                x: min_int(col as int, sat_sub(cols as int, src_w as int)) as u32,
                y: (c.y + c.h) as u32,
            }
        }),
{
}

} // verus!
