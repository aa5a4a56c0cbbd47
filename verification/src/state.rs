//! The gesture reducer: the grid, the view's column count and band, the in-flight drag and resize
//! gestures, the keyboard-driven pane state, the undo history and the host configuration, on one
//! [`PackedState`]. Every event is a `&mut self` method taking values the binding already
//! extracted: pixel geometry is turned into grid steps, columns, rows and hit tiles before it
//! reaches this module, so the whole machine runs on integers.

use vstd::prelude::*;

use crate::config::{binds, breakpoint_of, scaled_cols, same_text, Breakpoint, Config, Keybind};
use crate::model::group::{first_pos, group_wf, Group, GroupView};
use crate::model::layout::{bounded, lemma_total_h_nonneg, packed, total_h};
use crate::model::packed::{
    add_tab_spec, close_spec, placed_h, self_drop, drop_ok, drop_spec, groups_wf, lemma_max_bottom_le,
    lemma_same_rects, locate, place_spec, refit_spec, resize_ok, resize_spec, source_group,
    target_spec, within_cols, CellView, DragSource, DragSourceView, DropTarget, GridState, GridView, PackedGrid,
};
use crate::model::serial::{accepts, envelope, open_envelope, LoadError, Serialized};
use crate::model::distinct::{
    distinct, fresh_group, fresh_panel, ids_below, lemma_occ_all_update, occ_all, source_listed,
};
use crate::model::sizes::{heights_met, lemma_mins_kept, mins_met};
use crate::model::stable::tall;
use crate::reload::{
    lemma_add_tab_keeps, lemma_capture_keeps, lemma_close_keeps, lemma_fresh_stable, lemma_grip_keeps, lemma_key_keeps,
    lemma_load_keeps, lemma_measure_keeps, lemma_place_keeps, lemma_release_keeps, lemma_reset_keeps,
    lemma_resize_keeps, reload_stable,
};
use crate::unique::{lemma_activated_distinct, lemma_capture_unique, lemma_empty_distinct, unique};
use crate::model::{GroupId, PanelId};

verus! {

/// A corner-resize gesture captured at press: which tile, and its size in steps then.
#[derive(Clone, Copy, Debug, PartialEq, Eq, Structural)]
pub struct ResizeStart {
    pub idx: usize,
    pub w: u32,
    pub h: u32,
}

/// An in-flight reposition: what was picked up, its size in steps (sizing the ghost and clamping
/// a `Pack` column), whether it has moved far enough to count as a drag, and once it has, the
/// live drop target.
struct Drag {
    source: DragSource,
    src_w: u32,
    src_h: u32,
    armed: bool,
    target: Option<DropTarget>,
}

/// The mathematical model of an in-flight drag.
pub struct DragView {
    pub source: DragSourceView,
    pub src_w: u32,
    pub src_h: u32,
    pub armed: bool,
    pub target: Option<DropTarget>,
}

/// Linear history of settled layouts with a cursor into it.
struct UndoHistory {
    states: Vec<PackedGrid>,
    cursor: usize,
}

/// Everything the packed layout needs to render and mutate itself.
pub struct PackedState {
    grid: PackedGrid,
    cols: u32,
    breakpoint: Breakpoint,
    drag: Option<Drag>,
    resize: Option<ResizeStart>,
    focused: Option<GroupId>,
    maximized: Option<GroupId>,
    help: bool,
    popups: Vec<GroupId>,
    undo: UndoHistory,
    ready: bool,
    measured: bool,
    cfg: Config,
}

/// The mathematical model of a [`PackedState`]. `focused` is the pane keyboard operations act
/// on; `maximized` a pure view toggle; `popups` the panes whose inspect box is open; `history`
/// the undo snapshots and `cursor` the one the layout last matched; `ready` the first-measure
/// latch and `measured` whether a container size has landed.
pub struct StateView {
    pub grid: GridView,
    pub cols: u32,
    pub breakpoint: Breakpoint,
    pub drag: Option<DragView>,
    pub resize: Option<ResizeStart>,
    pub focused: Option<GroupId>,
    pub maximized: Option<GroupId>,
    pub help: bool,
    pub popups: Set<GroupId>,
    pub history: Seq<GridView>,
    pub cursor: int,
    pub ready: bool,
    pub measured: bool,
    pub cfg: Config,
}

impl View for PackedState {
    type V = StateView;

    closed spec fn view(&self) -> StateView {
        StateView {
            grid: self.grid@,
            cols: self.cols,
            breakpoint: self.breakpoint,
            drag: match self.drag {
                Some(d) => Some(
                    DragView {
                        source: d.source@,
                        src_w: d.src_w,
                        src_h: d.src_h,
                        armed: d.armed,
                        target: d.target,
                    },
                ),
                None => None,
            },
            resize: self.resize,
            focused: self.focused,
            maximized: self.maximized,
            help: self.help,
            popups: Set::new(|g: GroupId| self.popups@.contains(g)),
            history: self.undo.states@.map_values(|g: PackedGrid| g@),
            cursor: self.undo.cursor as int,
            ready: self.ready,
            measured: self.measured,
            cfg: self.cfg,
        }
    }
}

// ------------------------------------------------------------------ specification

/// A layout the reducer can hold: no tiles overlap and none floats, and its integer bounds fit.
pub open spec fn layout_ok(g: GridView) -> bool {
    packed(g.cells) && bounded(g.cells)
}

/// Whether the active tab of group `id` can be closed: the group exists and its active index is
/// in range.
pub open spec fn closable(g: GridView, id: GroupId) -> bool {
    locate(g.cells, id) matches Some(i) && g.cells[i].group.active < g.cells[i].group.tabs.len()
}

/// The reducer's invariant: at least one column, a sound layout and sound snapshots, and a
/// cursor inside a non-empty history.
pub open spec fn state_inv(s: StateView) -> bool {
    &&& s.cols >= 1
    &&& layout_ok(s.grid)
    &&& forall|i: int| 0 <= i < s.history.len() ==> #[trigger] layout_ok(s.history[i])
    &&& s.history.len() == 0 ==> s.cursor == 0
    &&& s.history.len() > 0 ==> 0 <= s.cursor < s.history.len()
}

/// Every group of the layout and of every snapshot hosts a tab and has its active index in range.
pub open spec fn groups_sound(s: StateView) -> bool {
    &&& groups_wf(s.grid.cells)
    &&& forall|i: int| 0 <= i < s.history.len() ==> groups_wf(#[trigger] s.history[i].cells)
}

/// Every tile lies within the view's columns.
pub open spec fn fits_view(s: StateView) -> bool {
    within_cols(s.grid.cells, s.cols as int)
}

/// Every tile honours its minimums in the live view, and every snapshot's tiles their minimum
/// heights (a walk back to a snapshot reflows it into the live view, which restores the widths).
pub open spec fn honours_mins(s: StateView) -> bool {
    &&& mins_met(s.grid.cells, s.cols as int)
    &&& forall|i: int| 0 <= i < s.history.len() ==> heights_met(#[trigger] s.history[i].cells)
}

/// The state after `place`.
pub open spec fn placed(s: StateView, group: GroupView, w: u32, h: u32, min: (u32, u32)) -> StateView {
    StateView { grid: place_spec(s.grid, group, w, h, min, s.cols), ..s }
}

/// The column count and band a container `width_px` wide selects.
pub open spec fn measured_cols(s: StateView, width_px: u64) -> u32 {
    scaled_cols(breakpoint_of(width_px as int), if s.cfg.steps >= 1 { s.cfg.steps as int } else { 1 }) as u32
}

/// The state after a container `width_px` wide is measured: the band follows the width, the
/// column count follows the band, and the grid reflows only when the column count changed.
pub open spec fn measure_step(s: StateView, width_px: u64) -> StateView {
    let c = measured_cols(s, width_px);
    StateView {
        breakpoint: breakpoint_of(width_px as int),
        cols: c,
        grid: if c != s.cols {
            GridView { cells: refit_spec(s.grid.cells, c as int), ..s.grid }
        } else {
            s.grid
        },
        measured: true,
        ..s
    }
}

/// Whether the current layout should be snapshotted: no drag in flight, the grid at rest and not
/// empty, and different from the snapshot under the cursor.
pub open spec fn wants_snapshot(s: StateView) -> bool {
    &&& s.drag is None
    &&& s.grid.state == GridState::Settled
    &&& s.grid.cells.len() > 0
    &&& !(0 <= s.cursor < s.history.len() && s.history[s.cursor] == s.grid)
}

/// The history after pushing `g`: any redo branch ahead of the cursor is dropped.
pub open spec fn pushed(h: Seq<GridView>, cursor: int, g: GridView) -> Seq<GridView> {
    if h.len() > 0 {
        h.take(cursor + 1).push(g)
    } else {
        h.push(g)
    }
}

/// The state after `capture_undo`.
pub open spec fn capture_step(s: StateView) -> StateView {
    if wants_snapshot(s) {
        let h = pushed(s.history, s.cursor, s.grid);
        StateView { history: h, cursor: h.len() - 1, ..s }
    } else {
        s
    }
}

/// The state after walking the history by `dir`: the snapshot there, reflowed into the live
/// column count (it may have been taken in another band), becomes the layout, and focus and
/// maximize let go of panes it does not host; past either end nothing changes.
pub open spec fn walk(s: StateView, dir: int) -> StateView {
    let n = s.cursor + dir;
    if 0 <= n < s.history.len() {
        pruned(
            StateView {
                grid: GridView { cells: refit_spec(s.history[n].cells, s.cols as int), ..s.history[n] },
                cursor: n,
                ..s
            },
        )
    } else {
        s
    }
}

/// Whether the first-measure latch fires: a container size has landed and it has not fired yet.
pub open spec fn fires(s: StateView) -> bool {
    !s.ready && s.measured
}

/// The state after the first-measure latch is polled.
pub open spec fn latched(s: StateView) -> StateView {
    StateView { ready: s.ready || s.measured, ..s }
}

/// `id` if the layout still hosts that group, else nothing.
pub open spec fn live(g: GridView, id: Option<GroupId>) -> Option<GroupId> {
    match id {
        Some(x) => if locate(g.cells, x) is Some {
            Some(x)
        } else {
            None
        },
        None => None,
    }
}

/// The state with focus and maximize dropped from panes the layout no longer hosts, so neither
/// keyboard operations nor the skeleton act on a pane that is gone.
pub open spec fn pruned(s: StateView) -> StateView {
    StateView { focused: live(s.grid, s.focused), maximized: live(s.grid, s.maximized), ..s }
}

/// The state after a stored layout `g` is loaded: reflowed into the live column count, with focus
/// and maximize letting go of panes it does not host.
pub open spec fn loaded(s: StateView, g: GridView) -> StateView {
    pruned(StateView { grid: GridView { cells: refit_spec(g.cells, s.cols as int), ..g }, ..s })
}

/// The size of the tile hosting group `id`.
pub open spec fn tile_size(g: GridView, id: GroupId) -> (u32, u32) {
    let c = g.cells[locate(g.cells, id).unwrap()];
    (c.w, c.h)
}

/// The state after pressing a tile header or a tab: the gesture is armed later, once the pointer
/// has moved far enough.
pub open spec fn pressed(s: StateView, source: DragSourceView) -> StateView {
    let (w, h) = tile_size(s.grid, source_group(source));
    StateView {
        focused: Some(source_group(source)),
        drag: Some(DragView { source, src_w: w, src_h: h, armed: false, target: None }),
        ..s
    }
}

/// Whether the drag's drop may run: an armed drag with a target needs what [`drop_ok`] needs.
pub open spec fn drag_ok(s: StateView) -> bool {
    match s.drag {
        Some(d) => d.armed && d.target is Some ==> drop_ok(s.grid, d.source, d.target.unwrap()) || self_drop(
            d.source,
            d.target.unwrap(),
        ),
        None => true,
    }
}

/// The grid an armed drag previews: its drop applied to a copy of the layout.
pub open spec fn preview_spec(s: StateView) -> GridView {
    match s.drag {
        Some(d) => if d.armed && d.target is Some {
            drop_spec(s.grid, d.source, d.target.unwrap(), s.cols)
        } else {
            s.grid
        },
        None => s.grid,
    }
}

/// The tile hosting group `from` with the tab `panel` made active, when both exist.
pub open spec fn activated(g: GridView, panel: Seq<char>, from: GroupId) -> GridView {
    match locate(g.cells, from) {
        Some(i) => match first_pos(g.cells[i].group.tabs, panel) {
            Some(k) => {
                let c = g.cells[i];
                GridView {
                    cells: g.cells.update(i, CellView { group: GroupView { active: k, ..c.group }, ..c }),
                    ..g
                }
            },
            None => g,
        },
        None => g,
    }
}

/// The state after a release: an armed drag commits the drop its preview showed; an unarmed tab
/// press is a click that activates that tab; either way the gesture ends, and a pane the drop
/// emptied away is neither focused nor maximized any more.
pub open spec fn release_step(s: StateView) -> StateView {
    match s.drag {
        None => s,
        Some(d) => {
            let g = if d.armed {
                preview_spec(s)
            } else {
                match d.source {
                    DragSourceView::Tab { panel, from } => activated(s.grid, panel, from),
                    DragSourceView::Tile(_) => s.grid,
                }
            };
            pruned(StateView { grid: g, drag: None, ..s })
        },
    }
}

/// Whether the key handler may run: a close chord with a focused pane needs that pane to exist
/// with its active index in range.
pub open spec fn key_ok(s: StateView, key: Seq<char>, alt: bool, ctrl: bool) -> bool {
    let kb = s.cfg.keybinds;
    !(key == "Escape"@ && (s.help || s.popups != Set::<GroupId>::empty())) && !binds(kb.undo, key, alt, ctrl)
        && !binds(kb.redo, key, alt, ctrl) && binds(kb.close, key, alt, ctrl) && s.focused is Some
        ==> closable(s.grid, s.focused.unwrap())
}

/// The inspect popups after toggling `g`.
pub open spec fn toggled(ps: Set<GroupId>, g: GroupId) -> Set<GroupId> {
    if ps.contains(g) {
        ps.remove(g)
    } else {
        ps.insert(g)
    }
}

/// The state after the close chord closes the active tab of the focused pane `g`. A pane left
/// without tabs is gone, so neither focus nor maximize stays on it.
pub open spec fn close_focused(s: StateView, g: GroupId) -> StateView {
    let after = close_spec(s.grid, g);
    let gone = locate(after.cells, g) is None;
    StateView {
        grid: after,
        focused: if gone {
            None
        } else {
            s.focused
        },
        maximized: if gone && s.maximized == Some(g) {
            None
        } else {
            s.maximized
        },
        ..s
    }
}

/// What a keydown does, and whether the binding should suppress the browser default (`None`: no
/// built-in chord matched, the host's own chords get their turn). Escape dismisses the hint and
/// the inspect boxes; then undo, redo, close, maximize and the hint in that order; `d` toggles
/// the inspect box of the maximized pane, else of the pane `hit` under the pointer.
pub open spec fn key_step(s: StateView, key: Seq<char>, alt: bool, ctrl: bool, hit: Option<GroupId>) -> (
    StateView,
    Option<bool>,
) {
    let kb = s.cfg.keybinds;
    if key == "Escape"@ && (s.help || s.popups != Set::<GroupId>::empty()) {
        (StateView { help: false, popups: Set::empty(), ..s }, Some(true))
    } else if binds(kb.undo, key, alt, ctrl) {
        (walk(s, -1), Some(true))
    } else if binds(kb.redo, key, alt, ctrl) {
        (walk(s, 1), Some(true))
    } else if binds(kb.close, key, alt, ctrl) {
        match s.focused {
            Some(g) => (close_focused(s, g), Some(true)),
            None => (s, Some(false)),
        }
    } else if binds(kb.maximize, key, alt, ctrl) {
        match s.focused {
            Some(f) => (
                StateView {
                    maximized: if s.maximized == Some(f) {
                        None
                    } else {
                        Some(f)
                    },
                    ..s
                },
                Some(true),
            ),
            None => (s, Some(false)),
        }
    } else if binds(kb.help, key, alt, ctrl) {
        (StateView { help: !s.help, ..s }, Some(true))
    } else if key == "d"@ && !alt && !ctrl {
        let t = if s.maximized is Some {
            s.maximized
        } else {
            hit
        };
        match t {
            Some(g) => (StateView { popups: toggled(s.popups, g), ..s }, Some(true)),
            None => (s, Some(false)),
        }
    } else {
        (s, None)
    }
}

/// The group a target joins, when it joins one.
pub open spec fn tab_group(t: DropTarget) -> Option<GroupId> {
    match t {
        DropTarget::Tab { group, .. } => Some(group),
        _ => None,
    }
}

/// The state after the pointer moves during a press or drag, given the dragged block's snapped
/// landing column and row, the tile under the pointer (and whether the pointer is in its header),
/// and whether the pointer has left the press point by more than the drag threshold. A press only
/// turns into a drag past the threshold; a drag then tracks the target the pointer resolves to.
pub open spec fn drag_move_step(
    s: StateView,
    beyond: bool,
    col: u32,
    row: u32,
    hit: Option<(usize, bool)>,
) -> StateView {
    match s.drag {
        None => s,
        Some(d) => if !d.armed && !beyond {
            s
        } else {
            let t = target_spec(s.grid.cells, d.source, col, row, hit, s.cols, d.src_w);
            StateView { drag: Some(DragView { armed: true, target: Some(t), ..d }), ..s }
        },
    }
}

/// The state after the binding measured where among a joined group's tabs the drag would land.
pub open spec fn slotted(s: StateView, index: usize) -> StateView {
    match s.drag {
        Some(d) => match d.target {
            Some(DropTarget::Tab { group, .. }) => if d.armed {
                StateView { drag: Some(DragView { target: Some(DropTarget::Tab { group, index }), ..d }), ..s }
            } else {
                s
            },
            _ => s,
        },
        None => s,
    }
}

/// The panels the drag carries: the torn tab, or every tab of the picked-up tile.
pub open spec fn carried_spec(s: StateView) -> Option<Seq<Seq<char>>> {
    match s.drag {
        Some(d) => match d.source {
            DragSourceView::Tab { panel, .. } => Some(seq![panel]),
            DragSourceView::Tile(g) => match locate(s.grid.cells, g) {
                Some(i) => Some(s.grid.cells[i].group.tabs),
                None => None,
            },
        },
        None => None,
    }
}

/// A grip's new extent: the size at press moved by `d` steps, at least one step.
pub open spec fn grip(size: u32, d: i64) -> u32 {
    (if size + d >= 1 {
        size + d
    } else {
        1
    }) as u32
}

/// What a grip move needs: the moved size fits the arithmetic, and the resize may run.
pub open spec fn grip_ok(s: StateView, dw: i64, dh: i64) -> bool {
    match s.resize {
        Some(r) => {
            &&& r.w + dw <= i64::MAX
            &&& r.h + dh <= i64::MAX
            &&& resize_ok(s.grid, r.idx, grip(r.w, dw), grip(r.h, dh), s.cols)
        },
        None => true,
    }
}

/// The state after the grip moves by `dw × dh` steps from where it was pressed.
pub open spec fn grip_step(s: StateView, dw: i64, dh: i64) -> StateView {
    match s.resize {
        Some(r) => StateView { grid: resize_spec(s.grid, r.idx, grip(r.w, dw), grip(r.h, dh), s.cols), ..s },
        None => s,
    }
}

/// Whether a tile renders while pane `m` (if any) is maximized: a maximized pane hides the rest.
pub open spec fn shows(c: CellView, m: Option<GroupId>) -> bool {
    match m {
        Some(g) => c.group.id == g,
        None => true,
    }
}

/// Indices of the first `n` tiles that render, in order.
pub open spec fn shown(cs: Seq<CellView>, m: Option<GroupId>, n: int) -> Seq<int>
    decreases n,
{
    if n <= 0 {
        Seq::empty()
    } else if shows(cs[n - 1], m) {
        shown(cs, m, n - 1).push(n - 1)
    } else {
        shown(cs, m, n - 1)
    }
}

/// While a drag is armed: whether tile `c` of the preview renders as the source's grey landing
/// shadow, and whether its header is the drop site of a join.
pub open spec fn drop_flags(s: StateView, c: CellView) -> (bool, bool) {
    match s.drag {
        Some(d) => if d.armed {
            match d.target {
                Some(DropTarget::Tab { group, .. }) => (false, group == c.group.id),
                Some(_) => (
                    match d.source {
                        DragSourceView::Tile(g) => g == c.group.id,
                        DragSourceView::Tab { panel, .. } => c.group.tabs.contains(panel),
                    },
                    false,
                ),
                None => (false, false),
            }
        } else {
            (false, false)
        },
        None => (false, false),
    }
}

/// The label listed for panel `id` from position `k` on: the first entry naming it, else empty.
pub open spec fn title_from(titles: Seq<(PanelId, String)>, id: Seq<char>, k: int) -> Seq<char>
    decreases titles.len() - k,
{
    if k < 0 || k >= titles.len() {
        Seq::empty()
    } else if titles[k].0@ == id {
        titles[k].1@
    } else {
        title_from(titles, id, k + 1)
    }
}

/// The label listed for panel `id`, empty when none is.
pub open spec fn title_of(titles: Seq<(PanelId, String)>, id: Seq<char>) -> Seq<char> {
    title_from(titles, id, 0)
}

/// Frame `f` renders tile `i` of `cs`: its rectangle in steps (or the whole container when it is
/// the maximized pane), its drop feedback, and its tabs with their labels unless it is the
/// landing shadow.
pub open spec fn frame_ok(f: Frame, s: StateView, cs: Seq<CellView>, i: int, titles: Seq<(PanelId, String)>) -> bool {
    let c = cs[i];
    let (shadow, tab_drop) = drop_flags(s, c);
    &&& f.gid == c.group.id
    &&& f.idx == i
    &&& f.x == c.x && f.y == c.y && f.w == c.w && f.h == c.h
    &&& f.fill == (s.maximized == Some(c.group.id))
    &&& f.shadow == shadow
    &&& f.tab_drop == tab_drop
    &&& if shadow {
        f.tabs@.len() == 0
    } else {
        &&& f.tabs@.len() == c.group.tabs.len()
        &&& forall|j: int|
            0 <= j < c.group.tabs.len() ==> {
                &&& (#[trigger] f.tabs@[j]).id@ == c.group.tabs[j]
                &&& f.tabs@[j].title@ == title_of(titles, c.group.tabs[j])
                &&& f.tabs@[j].active == (j == c.group.active)
            }
    }
}

/// The panels hidden from the content overlay while an armed drag carries them on its ghost.
pub open spec fn ghost_hidden(s: StateView, p: Seq<CellView>) -> Seq<Seq<char>> {
    match s.drag {
        Some(d) => if d.armed {
            match d.source {
                DragSourceView::Tile(g) => match locate(p, g) {
                    Some(i) => p[i].group.tabs,
                    None => Seq::empty(),
                },
                DragSourceView::Tab { panel, .. } => seq![panel],
            }
        } else {
            Seq::empty()
        },
        None => Seq::empty(),
    }
}

/// Where a panel's content sits: carried by the ghost or inactive, it is hidden; the active panel
/// of the maximized pane fills the container; with no pane maximized the active panel covers its
/// tile's body.
pub open spec fn slot_place(m: Option<GroupId>, c: CellView, active: bool, hidden: bool) -> SlotPlace {
    if hidden {
        SlotPlace::Hidden
    } else {
        match m {
            Some(g) => if c.group.id != g || !active {
                SlotPlace::Hidden
            } else {
                SlotPlace::Fill
            },
            None => if !active {
                SlotPlace::Hidden
            } else {
                SlotPlace::Rect { x: c.x, y: c.y, w: c.w, h: c.h }
            },
        }
    }
}

/// The overlay slots of tile `c`'s panels, in strip order.
pub open spec fn cell_slots(s: StateView, hid: Seq<Seq<char>>, c: CellView) -> Seq<(Seq<char>, SlotPlace, GroupId)> {
    Seq::new(
        c.group.tabs.len(),
        |j: int|
            (
                c.group.tabs[j],
                slot_place(s.maximized, c, c.group.tabs[j] == c.group.tabs[c.group.active], hid.contains(c.group.tabs[j])),
                c.group.id,
            ),
    )
}

/// The overlay slots of the first `n` tiles of `p`.
pub open spec fn slots(s: StateView, p: Seq<CellView>, n: int) -> Seq<(Seq<char>, SlotPlace, GroupId)>
    decreases n,
{
    if n <= 0 {
        Seq::empty()
    } else {
        slots(s, p, n - 1) + cell_slots(s, ghost_hidden(s, p), p[n - 1])
    }
}

/// Whether the ghost can be labelled: a picked-up tile that still exists has its active index in
/// range.
pub open spec fn ghost_ok(s: StateView) -> bool {
    match s.drag {
        Some(d) => match d.source {
            DragSourceView::Tile(g) => d.armed && locate(s.grid.cells, g) is Some ==> closable(s.grid, g),
            _ => true,
        },
        None => true,
    }
}

/// The ghost an armed drag floats under the pointer: the label of the torn tab or of the tile's
/// active tab, and the source's size in steps.
pub open spec fn ghost_spec(s: StateView, titles: Seq<(PanelId, String)>) -> Option<(Seq<char>, u32, u32)> {
    match s.drag {
        Some(d) => if d.armed {
            let title = match d.source {
                DragSourceView::Tile(g) => match locate(s.grid.cells, g) {
                    Some(i) => title_of(titles, s.grid.cells[i].group.tabs[s.grid.cells[i].group.active]),
                    None => Seq::empty(),
                },
                DragSourceView::Tab { panel, .. } => title_of(titles, panel),
            };
            Some((title, d.src_w, d.src_h))
        } else {
            None
        },
        None => None,
    }
}

/// The rectangles of the first `n` tiles of `p` whose inspect box is open.
pub open spec fn inspected(p: Seq<CellView>, pops: Set<GroupId>, n: int) -> Seq<(u32, u32, u32, u32)>
    decreases n,
{
    if n <= 0 {
        Seq::empty()
    } else if pops.contains(p[n - 1].group.id) {
        inspected(p, pops, n - 1).push((p[n - 1].x, p[n - 1].y, p[n - 1].w, p[n - 1].h))
    } else {
        inspected(p, pops, n - 1)
    }
}

/// How a chord is written in the keybind hint: `Ctrl+`, then `Alt+`, then the key.
pub open spec fn chord_text(b: Keybind) -> Seq<char> {
    (if b.ctrl {
        "Ctrl+"@
    } else {
        Seq::empty()
    }) + (if b.alt {
        "Alt+"@
    } else {
        Seq::empty()
    }) + b.key@
}

// ------------------------------------------------------------------ undo history

impl UndoHistory {
    spec fn views(&self) -> Seq<GridView> {
        self.states@.map_values(|g: PackedGrid| g@)
    }

    /// Append a fresh snapshot, dropping any redo branch ahead of the cursor.
    fn push(&mut self, g: PackedGrid)
        requires
            old(self).states.len() == 0 ==> old(self).cursor == 0,
            old(self).states.len() > 0 ==> old(self).cursor < old(self).states.len(),
        ensures
            final(self).views() == pushed(old(self).views(), old(self).cursor as int, g@),
            final(self).cursor == final(self).views().len() - 1,
    {
        let ghost h = self.views();
        if self.states.len() > 0 {
            self.states.truncate(self.cursor + 1);
            proof {
                assert(self.views() =~= h.take(old(self).cursor as int + 1));
            }
        }
        let ghost before = self.views();
        self.states.push(g);
        proof {
            assert(self.views() =~= before.push(g@));
        }
        self.cursor = self.states.len() - 1;
    }

    /// Walk the cursor by `dir` and hand back the snapshot there, or `None` past either end.
    fn step(&mut self, dir: i32) -> (r: Option<PackedGrid>)
        ensures
            ({
                let n = old(self).cursor + dir;
                if 0 <= n < old(self).views().len() {
                    &&& r matches Some(g) && g@ == old(self).views()[n]
                    &&& final(self).cursor == n
                    &&& final(self).states == old(self).states
                } else {
                    &&& r is None
                    &&& *final(self) == *old(self)
                }
            }),
    {
        let next: i128 = self.cursor as i128 + dir as i128;
        if next < 0 || next >= self.states.len() as i128 {
            return None;
        }
        let n = next as usize;
        let g = self.states[n].clone();
        self.cursor = n;
        Some(g)
    }
}

// ------------------------------------------------------------------ the reducer

/// One tile of the skeleton: its group, its index in the (preview) grid, its rectangle in steps,
/// whether it fills the container as the maximized pane, the drop feedback (`shadow`: the grey
/// landing placeholder; `tab_drop`: its header is the join site), and its tabs (none when
/// `shadow`).
pub struct Frame {
    pub gid: GroupId,
    pub idx: usize,
    pub x: u32,
    pub y: u32,
    pub w: u32,
    pub h: u32,
    pub fill: bool,
    pub shadow: bool,
    pub tab_drop: bool,
    pub tabs: Vec<Tab>,
}

/// One tab in a frame's header: its panel, its label, and whether it is the active tab.
pub struct Tab {
    pub id: PanelId,
    pub title: String,
    pub active: bool,
}

/// Where a panel's content sits in the overlay.
#[derive(Clone, Copy, Debug, PartialEq, Eq, Structural)]
pub enum SlotPlace {
    Hidden,
    /// The whole container below the header band.
    Fill,
    /// Over the body of the tile at this rectangle, in steps.
    Rect { x: u32, y: u32, w: u32, h: u32 },
}

/// A panel's slot in the content overlay: where it sits and its host group.
pub struct ContentSlot {
    pub place: SlotPlace,
    pub group: GroupId,
}

/// The floating drag ghost: the label it shows and its size in steps.
pub struct DragGhost {
    pub title: String,
    pub w: u32,
    pub h: u32,
}

/// The label listed for `id` in `titles`, empty when none is.
pub fn title_lookup(titles: &Vec<(PanelId, String)>, id: &PanelId) -> (t: String)
    ensures
        t@ == title_of(titles@, id@),
{
    let mut k: usize = 0;
    while k < titles.len()
        invariant
            k <= titles@.len(),
            title_of(titles@, id@) == title_from(titles@, id@, k as int),
        decreases titles@.len() - k,
    {
        if titles[k].0 == *id {
            return titles[k].1.clone();
        }
        k += 1;
    }
    String::new()
}

/// The panels of the first tile hosting group `g`, or none.
fn tabs_of(grid: &PackedGrid, g: GroupId) -> (v: Vec<PanelId>)
    ensures
        crate::model::group::panel_views(v@) == match locate(grid@.cells, g) {
            Some(i) => grid@.cells[i].group.tabs,
            None => Seq::empty(),
        },
{
    match grid.locate(g) {
        Some(i) => grid.cells[i].group.clone().tabs,
        None => {
            let v: Vec<PanelId> = Vec::new();
            proof {
                assert(crate::model::group::panel_views(v@) =~= Seq::<Seq<char>>::empty());
            }
            v
        },
    }
}

/// Whether `id` is among `ps`.
fn listed(ps: &Vec<PanelId>, id: &PanelId) -> (r: bool)
    ensures
        r == crate::model::group::panel_views(ps@).contains(id@),
{
    let ghost pv = crate::model::group::panel_views(ps@);
    let mut k: usize = 0;
    while k < ps.len()
        invariant
            k <= ps@.len(),
            pv == crate::model::group::panel_views(ps@),
            forall|j: int| 0 <= j < k ==> pv[j] != id@,
        decreases ps@.len() - k,
    {
        if ps[k] == *id {
            proof {
                assert(pv[k as int] == id@);
            }
            return true;
        }
        k += 1;
    }
    false
}

/// What a binding must do after a handled keydown.
pub struct KeyOutcome {
    pub prevent_default: bool,
}

impl PackedState {
    /// The reducer's invariant.
    pub closed spec fn wf(&self) -> bool {
        &&& state_inv(self@)
        &&& self.popups@.no_duplicates()
    }

    /// What the invariant promises of the view.
    pub proof fn lemma_wf(&self)
        requires
            self.wf(),
        ensures
            state_inv(self@),
    {
    }

    proof fn lemma_history(&self)
        requires
            self.wf(),
        ensures
            self.undo.states.len() == 0 ==> self.undo.cursor == 0,
            self.undo.states.len() > 0 ==> self.undo.cursor < self.undo.states.len(),
            self.undo.views() == self@.history,
    {
    }

    /// A fresh reducer for `cfg`: an empty layout across `cfg.steps` columns (at least one) in the
    /// widest band, no gesture, no focus, an empty history, not yet measured.
    pub fn new(cfg: Config) -> (s: PackedState)
        ensures
            s.wf(),
            s@ == (StateView {
                grid: GridView { cells: Seq::empty(), state: GridState::Settled, next_group_id: 0 },
                cols: if cfg.steps >= 1 {
                    cfg.steps
                } else {
                    1
                },
                breakpoint: Breakpoint::Xl,
                drag: None,
                resize: None,
                focused: None,
                maximized: None,
                help: false,
                popups: Set::empty(),
                history: Seq::empty(),
                cursor: 0,
                ready: false,
                measured: false,
                cfg,
            }),
            reload_stable(s@),
            unique(s@),
            honours_mins(s@),
    {
        let cols = if cfg.steps >= 1 {
            cfg.steps
        } else {
            1
        };
        let s = PackedState {
            grid: PackedGrid::default(),
            cols,
            breakpoint: Breakpoint::default(),
            drag: None,
            resize: None,
            focused: None,
            maximized: None,
            help: false,
            popups: Vec::new(),
            undo: UndoHistory { states: Vec::new(), cursor: 0 },
            ready: false,
            measured: false,
            cfg,
        };
        proof {
            assert(s@.popups =~= Set::<GroupId>::empty());
            assert(s@.history =~= Seq::<GridView>::empty());
            lemma_fresh_stable(s@);
            lemma_empty_distinct(s@.grid);
        }
        s
    }

    // ------- host API

    /// Auto-pack `group` with its per-type minimum already resolved to whole steps; the asked size
    /// is raised to that minimum. Only after the first measure: before it there is no step size to
    /// resolve a minimum against. The bound on the summed tile heights is a conservative machine
    /// limit: with it no settled bottom edge can pass `u32::MAX`.
    pub fn place(&mut self, group: Group, w: u32, h: u32, min: (u32, u32))
        requires
            old(self).wf(),
            old(self)@.measured,
            total_h(old(self)@.grid.cells) + placed_h(h, min.1) <= u32::MAX,
        ensures
            final(self).wf(),
            final(self)@ == placed(old(self)@, group@, w, h, min),
            fits_view(old(self)@) ==> fits_view(final(self)@),
            groups_sound(old(self)@) && group_wf(group@) ==> groups_sound(final(self)@),
            reload_stable(old(self)@) && (1 <= h || 1 <= min.1) && (1 <= w || 1 <= min.0) ==> reload_stable(
                final(self)@,
            ),
            unique(old(self)@) && fresh_group(old(self)@.grid, group@) ==> unique(final(self)@),
            honours_mins(old(self)@) ==> honours_mins(final(self)@),
    {
        proof {
            let cs = self@.grid.cells;
            lemma_total_h_nonneg(cs);
            lemma_max_bottom_le(cs, total_h(cs));
        }
        let ghost gv = group@;
        self.grid.place(group, w, h, min, self.cols);
        proof {
            self.lemma_frame();
            if reload_stable(old(self)@) && (1 <= h || 1 <= min.1) && (1 <= w || 1 <= min.0) {
                lemma_place_keeps(old(self)@, gv, w, h, min);
            }
        }
    }

    /// Open `panel` as the active last tab of group `group`.
    pub fn add_tab(&mut self, group: GroupId, panel: PanelId)
        requires
            old(self).wf(),
            locate(old(self)@.grid.cells, group) is Some,
        ensures
            final(self).wf(),
            final(self)@ == (StateView { grid: add_tab_spec(old(self)@.grid, group, panel@), ..old(self)@ }),
            fits_view(old(self)@) ==> fits_view(final(self)@),
            groups_sound(old(self)@) ==> groups_sound(final(self)@),
            reload_stable(old(self)@) ==> reload_stable(final(self)@),
            unique(old(self)@) && fresh_panel(old(self)@.grid.cells, panel@) ==> unique(final(self)@),
            honours_mins(old(self)@) ==> honours_mins(final(self)@),
    {
        proof {
            if reload_stable(self@) {
                lemma_add_tab_keeps(self@, group, panel@);
            }
        }
        self.grid.add_tab(group, panel);
        proof {
            lemma_same_rects(self@.grid.cells, old(self)@.grid.cells);
            self.lemma_frame();
        }
    }

    /// Close the active tab of group `group`; a group left without tabs leaves the layout.
    pub fn close_active(&mut self, group: GroupId)
        requires
            old(self).wf(),
            closable(old(self)@.grid, group),
        ensures
            final(self).wf(),
            final(self)@ == (StateView { grid: close_spec(old(self)@.grid, group), ..old(self)@ }),
            fits_view(old(self)@) ==> fits_view(final(self)@),
            groups_sound(old(self)@) ==> groups_sound(final(self)@),
            reload_stable(old(self)@) ==> reload_stable(final(self)@),
            unique(old(self)@) ==> unique(final(self)@),
            honours_mins(old(self)@) ==> honours_mins(final(self)@),
    {
        proof {
            self.lemma_close_ok(group);
            if reload_stable(self@) {
                lemma_close_keeps(self@, group);
            }
        }
        self.grid.close_active(group);
        proof {
            if crate::model::packed::same_rects(self@.grid.cells, old(self)@.grid.cells) {
                lemma_same_rects(self@.grid.cells, old(self)@.grid.cells);
            }
            self.lemma_frame();
        }
    }

    /// Resize tile `idx` to `new_w × new_h` steps within the live column count.
    pub fn resize(&mut self, idx: usize, new_w: u32, new_h: u32)
        requires
            old(self).wf(),
            resize_ok(old(self)@.grid, idx, new_w, new_h, old(self)@.cols),
        ensures
            final(self).wf(),
            final(self)@ == (StateView {
                grid: resize_spec(old(self)@.grid, idx, new_w, new_h, old(self)@.cols),
                ..old(self)@
            }),
            fits_view(old(self)@) && old(self)@.grid.cells[idx as int].x < old(self)@.cols ==> fits_view(final(self)@),
            groups_sound(old(self)@) ==> groups_sound(final(self)@),
            reload_stable(old(self)@) && (new_w >= 1 || old(self)@.grid.cells[idx as int].min_w >= 1) && (new_h >= 1
                || old(self)@.grid.cells[idx as int].min_h >= 1) ==> reload_stable(final(self)@),
            unique(old(self)@) ==> unique(final(self)@),
            honours_mins(old(self)@) && fits_view(old(self)@) ==> honours_mins(final(self)@),
    {
        proof {
            if reload_stable(self@) && (new_w >= 1 || self@.grid.cells[idx as int].min_w >= 1) && (new_h >= 1
                || self@.grid.cells[idx as int].min_h >= 1) {
                lemma_resize_keeps(self@, idx, new_w, new_h);
            }
        }
        self.grid.resize(idx, new_w, new_h, self.cols);
        proof {
            self.lemma_frame();
        }
    }

    /// The current layout in the envelope it is stored in (the binding encodes it as JSON).
    pub fn save(&self) -> (s: Serialized)
        ensures
            s.version == crate::model::serial::SCHEMA_VERSION,
            s.grid@ == self@.grid,
    {
        envelope(self.grid.clone())
    }

    /// Replace the layout with a previously saved one, already parsed by the binding. A parse
    /// failure or a payload from a newer schema is an error and leaves the layout alone; anything
    /// else is reflowed into the live column count, since it may come from another band.
    pub fn load(&mut self, parsed: Result<Serialized, serde_json::Error>) -> (r: Result<(), LoadError>)
        requires
            old(self).wf(),
            match parsed {
                Ok(p) => accepts(p.version) ==> total_h(p.grid@.cells) <= u32::MAX,
                Err(_) => true,
            },
        ensures
            final(self).wf(),
            match parsed {
                Err(_) => (r matches Err(LoadError::Parse(_))) && final(self)@ == old(self)@,
                Ok(p) => if accepts(p.version) {
                    r is Ok && final(self)@ == loaded(old(self)@, p.grid@)
                } else {
                    (r matches Err(LoadError::FutureVersion(v)) && v == p.version) && final(self)@ == old(self)@
                },
            },
            r is Ok ==> fits_view(final(self)@),
            r is Err ==> final(self)@ == old(self)@,
            groups_sound(old(self)@) && (parsed matches Ok(p) ==> groups_wf(p.grid@.cells)) ==> groups_sound(
                final(self)@,
            ),
            reload_stable(old(self)@) && (parsed matches Ok(p) ==> tall(p.grid@.cells)) ==> reload_stable(final(self)@),
            unique(old(self)@) && (parsed matches Ok(p) ==> distinct(p.grid@)) ==> unique(final(self)@),
            honours_mins(old(self)@) && (parsed matches Ok(p) ==> heights_met(p.grid@.cells)) ==> honours_mins(
                final(self)@,
            ),
    {
        proof {
            self.lemma_wf();
        }
        match open_envelope(parsed) {
            Err(e) => Err(e),
            Ok(g) => {
                proof {
                    if reload_stable(self@) && tall(g@.cells) {
                        lemma_load_keeps(self@, g@);
                    }
                }
                self.grid = g;
                self.grid.refit(self.cols);
                self.prune();
                proof {
                    self.lemma_frame();
                }
                Ok(())
            },
        }
    }

    /// Hand out the next group id.
    pub fn mint_group_id(&mut self) -> (id: GroupId)
        requires
            old(self).wf(),
            old(self)@.grid.next_group_id < u64::MAX,
        ensures
            final(self).wf(),
            id == GroupId(old(self)@.grid.next_group_id),
            final(self)@ == (StateView {
                grid: GridView { next_group_id: (old(self)@.grid.next_group_id + 1) as u64, ..old(self)@.grid },
                ..old(self)@
            }),
            fits_view(old(self)@) ==> fits_view(final(self)@),
            groups_sound(old(self)@) ==> groups_sound(final(self)@),
            unique(old(self)@) ==> unique(final(self)@),
    {
        let id = self.grid.mint_group_id();
        proof {
            self.lemma_frame();
            let cs = self@.grid.cells;
            if unique(old(self)@) {
                assert forall|i: int| 0 <= i < cs.len() implies (#[trigger] cs[i]).group.id.0 < self@.grid.next_group_id by {
                    assert(ids_below(old(self)@.grid.cells, old(self)@.grid.next_group_id));
                }
            }
        }
        id
    }

    /// The live column count.
    pub fn cols(&self) -> (c: u32)
        ensures
            c == self@.cols,
    {
        self.cols
    }

    /// The live band.
    pub fn breakpoint(&self) -> (b: Breakpoint)
        ensures
            b == self@.breakpoint,
    {
        self.breakpoint
    }

    /// Read access to the live grid, for a host rebuilding its panel list from a restored layout.
    pub fn grid(&self) -> (g: &PackedGrid)
        ensures
            g@ == self@.grid,
    {
        &self.grid
    }

    /// The host configuration.
    pub fn config(&self) -> (c: &Config)
        ensures
            *c == self@.cfg,
    {
        &self.cfg
    }

    /// Wipe the layout back to empty, as for a host re-seeding a fresh band.
    pub fn reset(&mut self)
        requires
            old(self).wf(),
        ensures
            final(self).wf(),
            final(self)@ == (StateView {
                grid: GridView { cells: Seq::empty(), state: GridState::Settled, next_group_id: 0 },
                focused: None,
                maximized: None,
                ..old(self)@
            }),
            fits_view(old(self)@) ==> fits_view(final(self)@),
            groups_sound(old(self)@) ==> groups_sound(final(self)@),
            reload_stable(old(self)@) ==> reload_stable(final(self)@),
            unique(old(self)@) ==> unique(final(self)@),
            honours_mins(old(self)@) ==> honours_mins(final(self)@),
    {
        self.grid = PackedGrid::default();
        self.focused = None;
        self.maximized = None;
        proof {
            self.lemma_frame();
            if reload_stable(old(self)@) {
                lemma_reset_keeps(old(self)@, self@.grid);
            }
            lemma_empty_distinct(self@.grid);
        }
    }

    /// Let focus and maximize go of panes the layout no longer hosts (see [`pruned`]).
    fn prune(&mut self)
        ensures
            final(self)@ == pruned(old(self)@),
            final(self).undo == old(self).undo,
            final(self).cols == old(self).cols,
            final(self).popups == old(self).popups,
            final(self).grid == old(self).grid,
    {
        match self.focused {
            Some(g) => {
                if self.grid.locate(g).is_none() {
                    self.focused = None;
                }
            },
            None => {},
        }
        match self.maximized {
            Some(g) => {
                if self.grid.locate(g).is_none() {
                    self.maximized = None;
                }
            },
            None => {},
        }
    }

    // ------- effects

    /// A container `width_px` wide (whole CSS px) with some height was measured: classify its
    /// band, scale the column count to it, and reflow the tiles when the count changed, so a
    /// layout built wide never spills past a narrower view.
    pub fn set_measure(&mut self, width_px: u64)
        requires
            old(self).wf(),
        ensures
            final(self).wf(),
            final(self)@ == measure_step(old(self)@, width_px),
            fits_view(old(self)@) || final(self)@.cols != old(self)@.cols ==> fits_view(final(self)@),
            groups_sound(old(self)@) ==> groups_sound(final(self)@),
            reload_stable(old(self)@) ==> reload_stable(final(self)@),
            unique(old(self)@) ==> unique(final(self)@),
            honours_mins(old(self)@) ==> honours_mins(final(self)@),
    {
        proof {
            self.lemma_wf();
            if reload_stable(self@) {
                lemma_measure_keeps(self@, width_px);
            }
        }
        let steps = if self.cfg.steps >= 1 {
            self.cfg.steps
        } else {
            1
        };
        let bp = Breakpoint::of(width_px);
        let c = bp.scale_cols(steps);
        self.breakpoint = bp;
        if self.cols != c {
            self.cols = c;
            self.grid.refit(c);
        }
        self.measured = true;
        proof {
            self.lemma_frame();
        }
    }

    /// Whether [`capture_undo`](Self::capture_undo) would push a snapshot.
    pub fn wants_undo_snapshot(&self) -> (r: bool)
        requires
            self.wf(),
        ensures
            r == wants_snapshot(self@),
    {
        proof {
            self.lemma_history();
        }
        if self.drag.is_some() || self.grid.state != GridState::Settled || self.grid.cells.len() == 0 {
            return false;
        }
        if self.undo.cursor < self.undo.states.len() {
            let same = self.undo.states[self.undo.cursor].same(&self.grid);
            proof {
                assert(self@.history[self.undo.cursor as int] == self.undo.states@[self.undo.cursor as int]@);
            }
            !same
        } else {
            true
        }
    }

    /// Snapshot a solid layout into the undo history: only at rest, with tiles, and when it
    /// differs from the snapshot under the cursor.
    pub fn capture_undo(&mut self)
        requires
            old(self).wf(),
        ensures
            final(self).wf(),
            final(self)@ == capture_step(old(self)@),
            groups_sound(old(self)@) ==> groups_sound(final(self)@),
            reload_stable(old(self)@) ==> reload_stable(final(self)@),
            unique(old(self)@) ==> unique(final(self)@),
            honours_mins(old(self)@) ==> honours_mins(final(self)@),
    {
        proof {
            if reload_stable(self@) {
                lemma_capture_keeps(self@);
            }
            if unique(self@) {
                lemma_capture_unique(self@);
            }
        }
        if !self.wants_undo_snapshot() {
            return;
        }
        proof {
            self.lemma_history();
        }
        let g = self.grid.clone();
        self.undo.push(g);
        proof {
            let h = self@.history;
            let old_h = old(self)@.history;
            assert forall|i: int| 0 <= i < h.len() implies #[trigger] layout_ok(h[i]) by {
                if i < h.len() - 1 {
                    assert(h[i] == old_h[i]);
                }
            }
            self.lemma_frame();
        }
    }

    /// The first-measure latch: `true` exactly once, after a container size has landed, so the
    /// host can seed its tiles against a live step size.
    pub fn take_ready(&mut self) -> (r: bool)
        requires
            old(self).wf(),
        ensures
            final(self).wf(),
            r == fires(old(self)@),
            final(self)@ == latched(old(self)@),
    {
        if self.ready || !self.measured {
            return false;
        }
        self.ready = true;
        proof {
            self.lemma_frame();
        }
        true
    }

    // ------- gestures

    /// Pick up a whole tile by its header: focus it and start a press that becomes a drag once
    /// the pointer moves far enough.
    pub fn press_tile(&mut self, gid: GroupId)
        requires
            old(self).wf(),
            locate(old(self)@.grid.cells, gid) is Some,
        ensures
            final(self).wf(),
            final(self)@ == pressed(old(self)@, DragSourceView::Tile(gid)),
    {
        let i = self.grid.locate(gid).unwrap();
        let w = self.grid.cells[i].w;
        let h = self.grid.cells[i].h;
        self.focused = Some(gid);
        self.drag = Some(Drag { source: DragSource::Tile(gid), src_w: w, src_h: h, armed: false, target: None });
        proof {
            self.lemma_frame();
        }
    }

    /// Press tab `panel` of group `from`: focus the group and start a press that tears the tab
    /// out once the pointer moves far enough (and is a click on the tab otherwise).
    pub fn press_tab(&mut self, panel: PanelId, from: GroupId)
        requires
            old(self).wf(),
            locate(old(self)@.grid.cells, from) is Some,
        ensures
            final(self).wf(),
            final(self)@ == pressed(old(self)@, DragSourceView::Tab { panel: panel@, from }),
    {
        let i = self.grid.locate(from).unwrap();
        let w = self.grid.cells[i].w;
        let h = self.grid.cells[i].h;
        self.focused = Some(from);
        self.drag = Some(Drag { source: DragSource::Tab { panel, from }, src_w: w, src_h: h, armed: false, target: None });
        proof {
            self.lemma_frame();
        }
    }

    /// Advance a press or drag (see [`drag_move_step`]). Returns the group the drag now joins, if
    /// it joins one, so the binding can measure the tab slot under the pointer.
    pub fn drag_move(&mut self, beyond: bool, col: u32, row: u32, hit: Option<(usize, bool)>) -> (r: Option<
        GroupId,
    >)
        requires
            old(self).wf(),
            hit matches Some((i, _)) ==> i < old(self)@.grid.cells.len(),
        ensures
            final(self).wf(),
            final(self)@ == drag_move_step(old(self)@, beyond, col, row, hit),
            r == match old(self)@.drag {
                Some(d) => if d.armed || beyond {
                    tab_group(target_spec(old(self)@.grid.cells, d.source, col, row, hit, old(self)@.cols, d.src_w))
                } else {
                    None
                },
                None => None,
            },
    {
        proof {
            self.lemma_wf();
        }
        let (armed, src_w) = match &self.drag {
            None => {
                return None;
            },
            Some(d) => (d.armed, d.src_w),
        };
        if !armed && !beyond {
            return None;
        }
        let t = match &self.drag {
            Some(d) => self.grid.resolve_target(&d.source, col, row, hit, self.cols, src_w),
            None => {
                return None;
            },
        };
        let old_drag = self.drag.take();
        match old_drag {
            Some(d) => {
                self.drag = Some(Drag { source: d.source, src_w: d.src_w, src_h: d.src_h, armed: true, target: Some(t) });
            },
            None => {},
        }
        proof {
            self.lemma_frame();
        }
        match t {
            DropTarget::Tab { group, .. } => Some(group),
            _ => None,
        }
    }

    /// Refine a joining drag's slot to `index`, as measured by the binding from the live tabs.
    pub fn set_tab_slot(&mut self, index: usize)
        requires
            old(self).wf(),
        ensures
            final(self).wf(),
            final(self)@ == slotted(old(self)@, index),
    {
        match &mut self.drag {
            Some(d) => {
                if d.armed {
                    match d.target {
                        Some(DropTarget::Tab { group, .. }) => {
                            d.target = Some(DropTarget::Tab { group, index });
                        },
                        _ => {},
                    }
                }
            },
            None => {},
        }
        proof {
            self.lemma_frame();
        }
    }

    /// The panels the drag carries (see [`carried_spec`]).
    pub fn carried(&self) -> (r: Option<Vec<PanelId>>)
        ensures
            match carried_spec(self@) {
                Some(ps) => r matches Some(v) && crate::model::group::panel_views(v@) == ps,
                None => r is None,
            },
    {
        match &self.drag {
            None => None,
            Some(d) => match &d.source {
                DragSource::Tab { panel, .. } => {
                    let v = vec![panel.clone()];
                    proof {
                        assert(crate::model::group::panel_views(v@) =~= seq![panel@]);
                    }
                    Some(v)
                },
                DragSource::Tile(g) => match self.grid.locate(*g) {
                    Some(i) => Some(self.grid.cells[i].group.clone().tabs),
                    None => None,
                },
            },
        }
    }

    /// Whether [`drag_release`](Self::drag_release) may run (see [`drag_ok`]).
    pub fn can_release(&self) -> (r: bool)
        ensures
            r == drag_ok(self@),
    {
        match &self.drag {
            Some(d) => match &d.target {
                Some(t) => if d.armed {
                    self.grid.can_drop(&d.source, t)
                } else {
                    true
                },
                None => true,
            },
            None => true,
        }
    }

    /// Commit a press or drag (see [`release_step`]).
    pub fn drag_release(&mut self)
        requires
            old(self).wf(),
            drag_ok(old(self)@),
        ensures
            final(self).wf(),
            final(self)@ == release_step(old(self)@),
            fits_view(old(self)@) ==> fits_view(final(self)@),
            groups_sound(old(self)@) ==> groups_sound(final(self)@),
            reload_stable(old(self)@) ==> reload_stable(final(self)@),
            unique(old(self)@) && (old(self)@.drag matches Some(d) ==> source_listed(old(self)@.grid, d.source))
                ==> unique(final(self)@),
            (old(self)@.drag matches Some(d) ==> source_listed(old(self)@.grid, d.source)) ==> forall|p: Seq<char>|
                #[trigger] occ_all(final(self)@.grid.cells, p) == occ_all(old(self)@.grid.cells, p),
            honours_mins(old(self)@) ==> honours_mins(final(self)@),
    {
        proof {
            self.lemma_wf();
            if reload_stable(self@) {
                lemma_release_keeps(self@);
            }
        }
        let taken = self.drag.take();
        let d = match taken {
            Some(d) => d,
            None => {
                return;
            },
        };
        if d.armed {
            match d.target {
                Some(t) => {
                    self.grid.drop(d.source, t, self.cols);
                },
                None => {},
            }
        } else {
            match d.source {
                DragSource::Tab { panel, from } => {
                    proof {
                        if distinct(self@.grid) {
                            lemma_activated_distinct(self@.grid, panel@, from);
                        }
                    }
                    self.activate(&panel, from);
                },
                DragSource::Tile(_) => {},
            }
        }
        self.prune();
        proof {
            self.lemma_frame();
        }
    }

    /// Make tab `panel` of group `from` active, when both exist.
    fn activate(&mut self, panel: &PanelId, from: GroupId)
        requires
            layout_ok(old(self)@.grid),
        ensures
            final(self)@ == (StateView { grid: activated(old(self)@.grid, panel@, from), ..old(self)@ }),
            layout_ok(final(self)@.grid),
            final(self).undo == old(self).undo,
            final(self).cols == old(self).cols,
            final(self).popups == old(self).popups,
            forall|c: int| within_cols(old(self)@.grid.cells, c) ==> #[trigger] within_cols(final(self)@.grid.cells, c),
            groups_wf(old(self)@.grid.cells) ==> groups_wf(final(self)@.grid.cells),
            forall|c: int| mins_met(old(self)@.grid.cells, c) ==> #[trigger] mins_met(final(self)@.grid.cells, c),
            forall|p: Seq<char>| #[trigger] occ_all(final(self)@.grid.cells, p) == occ_all(old(self)@.grid.cells, p),
    {
        let ghost g0 = self@.grid;
        let idx = match self.grid.locate(from) {
            Some(i) => i,
            None => {
                return;
            },
        };
        let k = match self.grid.cells[idx].group.position(panel) {
            Some(k) => k,
            None => {
                return;
            },
        };
        self.grid.cells[idx].group.active = k;
        proof {
            let c = g0.cells[idx as int];
            let nc = CellView { group: GroupView { active: k as int, ..c.group }, ..c };
            assert(self@.grid.cells =~= g0.cells.update(idx as int, nc));
            lemma_same_rects(self@.grid.cells, g0.cells);
            assert forall|m: int| mins_met(g0.cells, m) implies #[trigger] mins_met(self@.grid.cells, m) by {
                assert forall|j: int| 0 <= j < g0.cells.len() implies (#[trigger] self@.grid.cells[j]).w == g0.cells[j].w
                    && self@.grid.cells[j].h == g0.cells[j].h && self@.grid.cells[j].min_w == g0.cells[j].min_w
                    && self@.grid.cells[j].min_h == g0.cells[j].min_h by {
                    if j != idx {
                        assert(self@.grid.cells[j] == g0.cells[j]);
                    }
                }
                lemma_mins_kept(self@.grid.cells, g0.cells, m);
            }
            assert forall|p: Seq<char>| #[trigger] occ_all(self@.grid.cells, p) == occ_all(g0.cells, p) by {
                lemma_occ_all_update(g0.cells, idx as int, nc, p);
            }
        }
    }

    /// Abandon the gesture: the layout stays as it was.
    pub fn drag_cancel(&mut self)
        requires
            old(self).wf(),
        ensures
            final(self).wf(),
            final(self)@ == (StateView { drag: None, ..old(self)@ }),
    {
        self.drag = None;
        proof {
            self.lemma_frame();
        }
    }

    /// Begin a corner resize of tile `idx`: remember its size, and mark the grid mid-gesture.
    pub fn resize_start(&mut self, idx: usize)
        requires
            old(self).wf(),
            idx < old(self)@.grid.cells.len(),
        ensures
            final(self).wf(),
            final(self)@ == (StateView {
                resize: Some(
                    ResizeStart { idx, w: old(self)@.grid.cells[idx as int].w, h: old(self)@.grid.cells[idx as int].h },
                ),
                grid: GridView { state: GridState::Resizing, ..old(self)@.grid },
                ..old(self)@
            }),
            fits_view(old(self)@) ==> fits_view(final(self)@),
            groups_sound(old(self)@) ==> groups_sound(final(self)@),
    {
        let w = self.grid.cells[idx].w;
        let h = self.grid.cells[idx].h;
        self.resize = Some(ResizeStart { idx, w, h });
        self.grid.state = GridState::Resizing;
        proof {
            self.lemma_frame();
        }
    }

    /// Move the grip `dw × dh` steps from where it was pressed (see [`grip_step`]).
    pub fn resize_move(&mut self, dw: i64, dh: i64)
        requires
            old(self).wf(),
            grip_ok(old(self)@, dw, dh),
        ensures
            final(self).wf(),
            final(self)@ == grip_step(old(self)@, dw, dh),
            fits_view(old(self)@) && (old(self)@.resize matches Some(r) ==> old(self)@.grid.cells[r.idx as int].x
                < old(self)@.cols) ==> fits_view(final(self)@),
            groups_sound(old(self)@) ==> groups_sound(final(self)@),
            reload_stable(old(self)@) && (old(self)@.resize matches Some(r) ==> (grip(r.w, dw) >= 1
                || old(self)@.grid.cells[r.idx as int].min_w >= 1) && (grip(r.h, dh) >= 1
                || old(self)@.grid.cells[r.idx as int].min_h >= 1)) ==> reload_stable(final(self)@),
            unique(old(self)@) ==> unique(final(self)@),
            honours_mins(old(self)@) && fits_view(old(self)@) ==> honours_mins(final(self)@),
    {
        proof {
            if reload_stable(self@) && (self@.resize matches Some(r) ==> (grip(r.w, dw) >= 1
                || self@.grid.cells[r.idx as int].min_w >= 1) && (grip(r.h, dh) >= 1
                || self@.grid.cells[r.idx as int].min_h >= 1)) {
                lemma_grip_keeps(self@, dw, dh);
            }
        }
        let r = match self.resize {
            Some(r) => r,
            None => {
                return;
            },
        };
        let a: i64 = r.w as i64 + dw;
        let b: i64 = r.h as i64 + dh;
        let nw: u32 = (if a >= 1 {
            a
        } else {
            1
        }) as u32;
        let nh: u32 = (if b >= 1 {
            b
        } else {
            1
        }) as u32;
        self.resize(r.idx, nw, nh);
    }

    /// End the corner resize: the grid is at rest again.
    pub fn resize_end(&mut self)
        requires
            old(self).wf(),
        ensures
            final(self).wf(),
            final(self)@ == if old(self)@.resize is None {
                old(self)@
            } else {
                StateView { resize: None, grid: GridView { state: GridState::Settled, ..old(self)@.grid }, ..old(self)@ }
            },
            fits_view(old(self)@) ==> fits_view(final(self)@),
            groups_sound(old(self)@) ==> groups_sound(final(self)@),
    {
        if self.resize.is_none() {
            return;
        }
        self.resize = None;
        self.grid.state = GridState::Settled;
        proof {
            self.lemma_frame();
        }
    }

    /// A body or tab press focuses the pane, so keybinds act on the pane touched last.
    pub fn focus(&mut self, gid: GroupId)
        requires
            old(self).wf(),
        ensures
            final(self).wf(),
            final(self)@ == (StateView { focused: Some(gid), ..old(self)@ }),
    {
        self.focused = Some(gid);
        proof {
            self.lemma_frame();
        }
    }

    /// Dismiss the keybind hint.
    pub fn close_help(&mut self)
        requires
            old(self).wf(),
        ensures
            final(self).wf(),
            final(self)@ == (StateView { help: false, ..old(self)@ }),
    {
        self.help = false;
        proof {
            self.lemma_frame();
        }
    }

    /// Whether a press or drag is in flight.
    pub fn dragging(&self) -> (r: bool)
        ensures
            r == self@.drag is Some,
    {
        self.drag.is_some()
    }

    /// Whether the press has moved far enough to count as a drag.
    pub fn armed(&self) -> (r: bool)
        ensures
            r == (self@.drag matches Some(d) && d.armed),
    {
        match &self.drag {
            Some(d) => d.armed,
            None => false,
        }
    }

    /// The corner resize in flight: which tile, and its size when the grip was pressed.
    pub fn grip(&self) -> (r: Option<ResizeStart>)
        ensures
            r == self@.resize,
    {
        self.resize
    }

    /// Whether a corner resize is in flight.
    pub fn resizing(&self) -> (r: bool)
        ensures
            r == self@.resize is Some,
    {
        self.resize.is_some()
    }

    /// Whether the keybind hint is showing.
    pub fn help_open(&self) -> (r: bool)
        ensures
            r == self@.help,
    {
        self.help
    }

    /// The pane keyboard operations act on.
    pub fn focused(&self) -> (r: Option<GroupId>)
        ensures
            r == self@.focused,
    {
        self.focused
    }

    /// The maximized pane, if any.
    pub fn maximized(&self) -> (r: Option<GroupId>)
        ensures
            r == self@.maximized,
    {
        self.maximized
    }

    // ------- keyboard

    /// Where pane `g`'s inspect box sits in the open list, if open.
    fn popup_pos(&self, g: GroupId) -> (r: Option<usize>)
        ensures
            r matches Some(i) ==> i < self.popups@.len() && self.popups@[i as int] == g,
            r is None ==> !self.popups@.contains(g),
    {
        let mut i: usize = 0;
        while i < self.popups.len()
            invariant
                i <= self.popups@.len(),
                forall|j: int| 0 <= j < i ==> self.popups@[j] != g,
            decreases self.popups@.len() - i,
        {
            if self.popups[i] == g {
                return Some(i);
            }
            i += 1;
        }
        None
    }

    /// Toggle the inspect box of pane `g`.
    fn toggle_popup(&mut self, g: GroupId)
        requires
            old(self).popups@.no_duplicates(),
        ensures
            final(self).popups@.no_duplicates(),
            final(self)@ == (StateView { popups: toggled(old(self)@.popups, g), ..old(self)@ }),
            final(self).undo == old(self).undo,
            final(self).cols == old(self).cols,
    {
        let ghost ps = self.popups@;
        match self.popup_pos(g) {
            Some(i) => {
                self.popups.remove(i);
                proof {
                    let r = self.popups@;
                    assert(r =~= ps.remove(i as int));
                    assert forall|x: GroupId| #[trigger] r.contains(x) <==> ps.contains(x) && x != g by {
                        if r.contains(x) {
                            let j = choose|j: int| 0 <= j < r.len() && r[j] == x;
                            if j < i {
                                assert(r[j] == ps[j]);
                                assert(ps[j] != ps[i as int]);
                            } else {
                                assert(r[j] == ps[j + 1]);
                                assert(ps[j + 1] != ps[i as int]);
                            }
                        }
                        if ps.contains(x) && x != g {
                            let j = choose|j: int| 0 <= j < ps.len() && ps[j] == x;
                            if j < i {
                                assert(r[j] == x);
                            } else {
                                assert(j != i);
                                assert(r[j - 1] == x);
                            }
                        }
                    }
                    assert(ps.contains(g)) by {
                        assert(ps[i as int] == g);
                    }
                    assert(Set::new(|x: GroupId| r.contains(x)) =~= toggled(Set::new(|x: GroupId| ps.contains(x)), g));
                    assert forall|a: int, b: int| 0 <= a < r.len() && 0 <= b < r.len() && a != b implies r[a] != r[b] by {
                        let a2 = if a < i {
                            a
                        } else {
                            a + 1
                        };
                        let b2 = if b < i {
                            b
                        } else {
                            b + 1
                        };
                        assert(r[a] == ps[a2] && r[b] == ps[b2]);
                    }
                }
            },
            None => {
                self.popups.push(g);
                proof {
                    let r = self.popups@;
                    assert(r =~= ps.push(g));
                    assert forall|x: GroupId| #[trigger] r.contains(x) <==> ps.contains(x) || x == g by {
                        if r.contains(x) && x != g {
                            let j = choose|j: int| 0 <= j < r.len() && r[j] == x;
                            assert(j < ps.len());
                            assert(ps[j] == x);
                        }
                        if ps.contains(x) {
                            let j = choose|j: int| 0 <= j < ps.len() && ps[j] == x;
                            assert(r[j] == x);
                        }
                        if x == g {
                            assert(r[ps.len() as int] == g);
                        }
                    }
                    assert(Set::new(|x: GroupId| r.contains(x)) =~= toggled(Set::new(|x: GroupId| ps.contains(x)), g));
                    assert forall|a: int, b: int| 0 <= a < r.len() && 0 <= b < r.len() && a != b implies r[a] != r[b] by {
                        if a < ps.len() && b < ps.len() {
                            assert(r[a] == ps[a] && r[b] == ps[b]);
                        } else if a < ps.len() {
                            assert(r[a] == ps[a]);
                            assert(ps.contains(r[a]));
                        } else if b < ps.len() {
                            assert(r[b] == ps[b]);
                            assert(ps.contains(r[b]));
                        }
                    }
                }
            },
        }
    }

    /// Whether the inspect popup set is empty.
    fn no_popups(&self) -> (r: bool)
        ensures
            r == (self@.popups == Set::<GroupId>::empty()),
    {
        let r = self.popups.len() == 0;
        proof {
            if r {
                assert(self@.popups =~= Set::<GroupId>::empty());
            } else {
                assert(self@.popups.contains(self.popups@[0]));
            }
        }
        r
    }

    /// Walk the undo history by `dir` (see [`walk`]).
    fn walk_history(&mut self, dir: i32)
        requires
            old(self).wf(),
        ensures
            final(self).wf(),
            final(self)@ == walk(old(self)@, dir as int),
            fits_view(old(self)@) ==> fits_view(final(self)@),
            groups_sound(old(self)@) ==> groups_sound(final(self)@),
            unique(old(self)@) ==> unique(final(self)@),
            honours_mins(old(self)@) ==> honours_mins(final(self)@),
    {
        proof {
            self.lemma_history();
            self.lemma_wf();
        }
        let ghost h = self@.history;
        let ghost c0 = self@.cursor;
        match self.undo.step(dir) {
            Some(g) => {
                proof {
                    assert(layout_ok(h[c0 + dir]));
                }
                self.grid = g;
                self.grid.refit(self.cols);
                self.prune();
            },
            None => {},
        }
        proof {
            self.lemma_frame();
        }
    }

    /// Close the active tab of the focused pane `g` (see [`close_focused`]).
    fn close_focused(&mut self, g: GroupId)
        requires
            old(self).wf(),
            closable(old(self)@.grid, g),
        ensures
            final(self).wf(),
            final(self)@ == close_focused(old(self)@, g),
            fits_view(old(self)@) ==> fits_view(final(self)@),
            groups_sound(old(self)@) ==> groups_sound(final(self)@),
            unique(old(self)@) ==> unique(final(self)@),
            honours_mins(old(self)@) ==> honours_mins(final(self)@),
    {
        self.close_active(g);
        if self.grid.locate(g).is_none() {
            self.focused = None;
            let is_max = match self.maximized {
                Some(m) => m == g,
                None => false,
            };
            if is_max {
                self.maximized = None;
            }
        }
        proof {
            self.lemma_wf();
            self.lemma_frame();
        }
    }

    /// Whether [`on_key`](Self::on_key) may run (see [`key_ok`]).
    pub fn can_key(&self, key: &str, alt: bool, ctrl: bool) -> (r: bool)
        ensures
            r == key_ok(self@, key@, alt, ctrl),
    {
        let kb = self.cfg.keybinds;
        if same_text(key, "Escape") && (self.help || !self.no_popups()) {
            return true;
        }
        if kb.undo.matches(key, alt, ctrl) || kb.redo.matches(key, alt, ctrl) || !kb.close.matches(key, alt, ctrl) {
            return true;
        }
        match self.focused {
            Some(g) => self.grid.can_close(g),
            None => true,
        }
    }

    /// Handle a keydown already reduced to the produced character and the non-shift modifiers
    /// (see [`key_step`]); `hit` is the pane under the pointer, for the inspect chord. `None`: no
    /// built-in chord matched and the host's own chords get their turn.
    #[verifier::spinoff_prover]
    pub fn on_key(&mut self, key: &str, alt: bool, ctrl: bool, hit: Option<GroupId>) -> (r: Option<KeyOutcome>)
        requires
            old(self).wf(),
            key_ok(old(self)@, key@, alt, ctrl),
        ensures
            final(self).wf(),
            final(self)@ == key_step(old(self)@, key@, alt, ctrl, hit).0,
            match r {
                Some(o) => key_step(old(self)@, key@, alt, ctrl, hit).1 == Some(o.prevent_default),
                None => key_step(old(self)@, key@, alt, ctrl, hit).1 is None,
            },
            fits_view(old(self)@) ==> fits_view(final(self)@),
            groups_sound(old(self)@) ==> groups_sound(final(self)@),
            reload_stable(old(self)@) ==> reload_stable(final(self)@),
            unique(old(self)@) ==> unique(final(self)@),
            honours_mins(old(self)@) ==> honours_mins(final(self)@),
    {
        proof {
            if reload_stable(self@) {
                lemma_key_keeps(self@, key@, alt, ctrl, hit);
            }
        }
        let kb = self.cfg.keybinds;
        if same_text(key, "Escape") && (self.help || !self.no_popups()) {
            self.help = false;
            self.popups.clear();
            proof {
                assert(self@.popups =~= Set::<GroupId>::empty());
                self.lemma_frame();
            }
            return Some(KeyOutcome { prevent_default: true });
        }
        if kb.undo.matches(key, alt, ctrl) {
            self.walk_history(-1);
            return Some(KeyOutcome { prevent_default: true });
        }
        if kb.redo.matches(key, alt, ctrl) {
            self.walk_history(1);
            return Some(KeyOutcome { prevent_default: true });
        }
        if kb.close.matches(key, alt, ctrl) {
            return match self.focused {
                Some(g) => {
                    self.close_focused(g);
                    Some(KeyOutcome { prevent_default: true })
                },
                None => Some(KeyOutcome { prevent_default: false }),
            };
        }
        if kb.maximize.matches(key, alt, ctrl) {
            return match self.focused {
                Some(f) => {
                    let is_max = match self.maximized {
                        Some(m) => m == f,
                        None => false,
                    };
                    self.maximized = if is_max {
                        None
                    } else {
                        Some(f)
                    };
                    proof {
                        self.lemma_frame();
                    }
                    Some(KeyOutcome { prevent_default: true })
                },
                None => Some(KeyOutcome { prevent_default: false }),
            };
        }
        if kb.help.matches(key, alt, ctrl) {
            self.help = !self.help;
            proof {
                self.lemma_frame();
            }
            return Some(KeyOutcome { prevent_default: true });
        }
        if same_text(key, "d") && !alt && !ctrl {
            let t = match self.maximized {
                Some(m) => Some(m),
                None => hit,
            };
            return match t {
                Some(g) => {
                    self.toggle_popup(g);
                    proof {
                        self.lemma_frame();
                    }
                    Some(KeyOutcome { prevent_default: true })
                },
                None => Some(KeyOutcome { prevent_default: false }),
            };
        }
        None
    }

    // ------- view model

    /// The grid the skeleton and the overlay render: while an armed drag has a target, the
    /// layout with that drop applied to a copy, else the layout itself.
    fn preview(&self) -> (p: PackedGrid)
        requires
            self.wf(),
            drag_ok(self@),
        ensures
            p@ == preview_spec(self@),
            layout_ok(p@),
    {
        proof {
            self.lemma_wf();
        }
        let mut g = self.grid.clone();
        match &self.drag {
            Some(d) => {
                if d.armed {
                    match &d.target {
                        Some(t) => {
                            g.drop(d.source.clone(), *t, self.cols);
                        },
                        None => {},
                    }
                }
            },
            None => {},
        }
        g
    }

    /// The drop feedback of preview tile `c` (see [`drop_flags`]).
    fn drop_flags(&self, c: &crate::model::packed::Cell) -> (r: (bool, bool))
        ensures
            r == drop_flags(self@, c@),
    {
        match &self.drag {
            Some(d) => {
                if !d.armed {
                    return (false, false);
                }
                match &d.target {
                    Some(DropTarget::Tab { group, .. }) => (false, *group == c.group.id),
                    Some(_) => {
                        let src = match &d.source {
                            DragSource::Tile(g) => *g == c.group.id,
                            DragSource::Tab { panel, .. } => listed(&c.group.tabs, panel),
                        };
                        (src, false)
                    },
                    None => (false, false),
                }
            },
            None => (false, false),
        }
    }

    /// The header tabs of `group`, labelled from `titles`.
    fn tab_row(group: &Group, titles: &Vec<(PanelId, String)>) -> (r: Vec<Tab>)
        ensures
            r@.len() == group@.tabs.len(),
            forall|j: int|
                0 <= j < group@.tabs.len() ==> {
                    &&& (#[trigger] r@[j]).id@ == group@.tabs[j]
                    &&& r@[j].title@ == title_of(titles@, group@.tabs[j])
                    &&& r@[j].active == (j == group@.active)
                },
    {
        let mut out: Vec<Tab> = Vec::new();
        let mut j: usize = 0;
        while j < group.tabs.len()
            invariant
                j <= group.tabs@.len(),
                out@.len() == j,
                forall|q: int|
                    0 <= q < j ==> {
                        &&& (#[trigger] out@[q]).id@ == group@.tabs[q]
                        &&& out@[q].title@ == title_of(titles@, group@.tabs[q])
                        &&& out@[q].active == (q == group@.active)
                    },
            decreases group.tabs@.len() - j,
        {
            let id = group.tabs[j].clone();
            let title = title_lookup(titles, &id);
            out.push(Tab { id, title, active: j == group.active });
            j += 1;
        }
        out
    }

    /// The tile skeleton: one [`Frame`] per rendered tile of the preview (a maximized pane hides
    /// the rest), in the preview's order. `titles` labels the panels.
    pub fn frames(&self, titles: &Vec<(PanelId, String)>) -> (r: Vec<Frame>)
        requires
            self.wf(),
            drag_ok(self@),
        ensures
            ({
                let p = preview_spec(self@).cells;
                let ix = shown(p, self@.maximized, p.len() as int);
                &&& r@.len() == ix.len()
                &&& forall|k: int| 0 <= k < ix.len() ==> frame_ok(#[trigger] r@[k], self@, p, ix[k], titles@)
            }),
    {
        let g = self.preview();
        let ghost p = g@.cells;
        let ghost m = self@.maximized;
        let mut out: Vec<Frame> = Vec::new();
        let mut i: usize = 0;
        while i < g.cells.len()
            invariant
                i <= p.len(),
                p == g@.cells,
                m == self@.maximized,
                out@.len() == shown(p, m, i as int).len(),
                forall|k: int|
                    0 <= k < out@.len() ==> frame_ok(#[trigger] out@[k], self@, p, shown(p, m, i as int)[k], titles@),
            decreases p.len() - i,
        {
            let c = &g.cells[i];
            let gid = c.group.id;
            let fill = match self.maximized {
                Some(mg) => mg == gid,
                None => false,
            };
            let show = match self.maximized {
                Some(_) => fill,
                None => true,
            };
            let ghost before = shown(p, m, i as int);
            proof {
                assert(c@ == p[i as int]);
            }
            if show {
                let (shadow, tab_drop) = self.drop_flags(c);
                let tabs = if shadow {
                    Vec::new()
                } else {
                    Self::tab_row(&c.group, titles)
                };
                let f = Frame { gid, idx: i, x: c.x, y: c.y, w: c.w, h: c.h, fill, shadow, tab_drop, tabs };
                proof {
                    assert(frame_ok(f, self@, p, i as int, titles@));
                }
                let ghost prev = out@;
                out.push(f);
                proof {
                    assert(shown(p, m, i as int + 1) == before.push(i as int));
                    assert forall|k: int| 0 <= k < out@.len() implies frame_ok(
                        #[trigger] out@[k],
                        self@,
                        p,
                        shown(p, m, i as int + 1)[k],
                        titles@,
                    ) by {
                        if k < before.len() {
                            assert(out@[k] == prev[k]);
                        }
                    }
                }
            } else {
                proof {
                    assert(shown(p, m, i as int + 1) == before);
                }
            }
            i += 1;
        }
        out
    }

    /// The panels an armed drag carries on its ghost, looked up in preview `g`.
    fn ghost_hidden_list(&self, g: &PackedGrid) -> (v: Vec<PanelId>)
        ensures
            crate::model::group::panel_views(v@) == ghost_hidden(self@, g@.cells),
    {
        let empty: Vec<PanelId> = Vec::new();
        proof {
            assert(crate::model::group::panel_views(empty@) =~= Seq::<Seq<char>>::empty());
        }
        match &self.drag {
            Some(d) => {
                if !d.armed {
                    return empty;
                }
                match &d.source {
                    DragSource::Tile(gid) => tabs_of(g, *gid),
                    DragSource::Tab { panel, .. } => {
                        let v = vec![panel.clone()];
                        proof {
                            assert(crate::model::group::panel_views(v@) =~= seq![panel@]);
                        }
                        v
                    },
                }
            },
            None => empty,
        }
    }

    /// Where a panel of tile `c` sits (see [`slot_place`]).
    fn place_of(&self, c: &crate::model::packed::Cell, active: bool, hidden: bool) -> (r: SlotPlace)
        ensures
            r == slot_place(self@.maximized, c@, active, hidden),
    {
        if hidden {
            return SlotPlace::Hidden;
        }
        match self.maximized {
            Some(g) => if c.group.id != g || !active {
                SlotPlace::Hidden
            } else {
                SlotPlace::Fill
            },
            None => if !active {
                SlotPlace::Hidden
            } else {
                SlotPlace::Rect { x: c.x, y: c.y, w: c.w, h: c.h }
            },
        }
    }

    /// Whether [`content_slots`](Self::content_slots) may run: every group of the preview has its
    /// active index in range.
    pub fn can_render(&self) -> (r: bool)
        requires
            self.wf(),
            drag_ok(self@),
        ensures
            r == groups_wf(preview_spec(self@).cells),
    {
        self.preview().groups_ok()
    }

    /// Whether [`ghost`](Self::ghost) may run (see [`ghost_ok`]).
    pub fn can_ghost(&self) -> (r: bool)
        ensures
            r == ghost_ok(self@),
    {
        match &self.drag {
            Some(d) => match &d.source {
                DragSource::Tile(g) => !d.armed || self.grid.locate(*g).is_none() || self.grid.can_close(*g),
                DragSource::Tab { .. } => true,
            },
            None => true,
        }
    }

    /// The content overlay: for every panel the preview hosts, tile by tile in strip order, where
    /// its content sits and its host group (see [`slots`]). A panel the layout does not host has
    /// no entry; of two entries for one panel the later wins.
    pub fn content_slots(&self) -> (r: Vec<(PanelId, ContentSlot)>)
        requires
            self.wf(),
            drag_ok(self@),
            groups_wf(preview_spec(self@).cells),
        ensures
            ({
                let p = preview_spec(self@).cells;
                let sl = slots(self@, p, p.len() as int);
                &&& r@.len() == sl.len()
                &&& forall|k: int| 0 <= k < sl.len() ==> ((#[trigger] r@[k]).0@, r@[k].1.place, r@[k].1.group) == sl[k]
            }),
    {
        let g = self.preview();
        let ghost p = g@.cells;
        let hidden = self.ghost_hidden_list(&g);
        let ghost hid = ghost_hidden(self@, p);
        let mut out: Vec<(PanelId, ContentSlot)> = Vec::new();
        let mut i: usize = 0;
        while i < g.cells.len()
            invariant
                i <= p.len(),
                p == g@.cells,
                layout_ok(g@),
                groups_wf(g@.cells),
                crate::model::group::panel_views(hidden@) == hid,
                hid == ghost_hidden(self@, p),
                out@.len() == slots(self@, p, i as int).len(),
                forall|k: int|
                    0 <= k < out@.len() ==> ((#[trigger] out@[k]).0@, out@[k].1.place, out@[k].1.group) == slots(
                        self@,
                        p,
                        i as int,
                    )[k],
            decreases p.len() - i,
        {
            let c = &g.cells[i];
            proof {
                assert(c@ == p[i as int]);
                assert(group_wf(p[i as int].group));
            }
            let active = c.group.active_panel();
            let ghost base = slots(self@, p, i as int);
            let ghost row = cell_slots(self@, hid, p[i as int]);
            let mut j: usize = 0;
            while j < c.group.tabs.len()
                invariant
                    j <= c.group.tabs@.len(),
                    c@ == p[i as int],
                    active@ == c@.group.tabs[c@.group.active],
                    crate::model::group::panel_views(hidden@) == hid,
                    row == cell_slots(self@, hid, p[i as int]),
                    out@.len() == base.len() + j,
                    forall|k: int|
                        0 <= k < out@.len() ==> ((#[trigger] out@[k]).0@, out@[k].1.place, out@[k].1.group) == (base
                            + row)[k],
                decreases c.group.tabs@.len() - j,
            {
                let id = c.group.tabs[j].clone();
                let is_active = c.group.tabs[j] == *active;
                let hid_here = listed(&hidden, &id);
                let place = self.place_of(c, is_active, hid_here);
                let ghost prev = out@;
                out.push((id, ContentSlot { place, group: c.group.id }));
                proof {
                    assert(c@.group.tabs[j as int] == c.group.tabs@[j as int]@);
                    assert forall|k: int| 0 <= k < out@.len() implies ((#[trigger] out@[k]).0@, out@[k].1.place, out@[k].1.group)
                        == (base + row)[k] by {
                        if k < prev.len() {
                            assert(out@[k] == prev[k]);
                        }
                    }
                }
                j += 1;
            }
            proof {
                assert(slots(self@, p, i as int + 1) == base + row);
            }
            i += 1;
        }
        out
    }

    /// The floating ghost of an armed drag (see [`ghost_spec`]); the binding places it under the
    /// pointer.
    pub fn ghost(&self, titles: &Vec<(PanelId, String)>) -> (r: Option<DragGhost>)
        requires
            self.wf(),
            ghost_ok(self@),
        ensures
            match ghost_spec(self@, titles@) {
                Some((t, w, h)) => r matches Some(gh) && gh.title@ == t && gh.w == w && gh.h == h,
                None => r is None,
            },
    {
        proof {
            self.lemma_wf();
        }
        match &self.drag {
            Some(d) => {
                if !d.armed {
                    return None;
                }
                let title = match &d.source {
                    DragSource::Tile(g) => match self.grid.locate(*g) {
                        Some(i) => title_lookup(titles, self.grid.cells[i].group.active_panel()),
                        None => String::new(),
                    },
                    DragSource::Tab { panel, .. } => title_lookup(titles, panel),
                };
                Some(DragGhost { title, w: d.src_w, h: d.src_h })
            },
            None => None,
        }
    }

    /// The rectangle of every preview tile whose inspect box is open, in the preview's order. A
    /// box left open on a pane that is gone shows nothing.
    pub fn inspect(&self) -> (r: Vec<(u32, u32, u32, u32)>)
        requires
            self.wf(),
            drag_ok(self@),
        ensures
            r@ == inspected(preview_spec(self@).cells, self@.popups, preview_spec(self@).cells.len() as int),
    {
        let g = self.preview();
        let ghost p = g@.cells;
        let mut out: Vec<(u32, u32, u32, u32)> = Vec::new();
        let mut i: usize = 0;
        while i < g.cells.len()
            invariant
                i <= p.len(),
                p == g@.cells,
                out@ == inspected(p, self@.popups, i as int),
            decreases p.len() - i,
        {
            let c = &g.cells[i];
            proof {
                assert(c@ == p[i as int]);
            }
            if self.popup_pos(c.group.id).is_some() {
                out.push((c.x, c.y, c.w, c.h));
            }
            i += 1;
        }
        out
    }

    /// How chord `b` is written in the keybind hint (see [`chord_text`]).
    fn chord(b: Keybind) -> (t: String)
        ensures
            t@ == chord_text(b),
    {
        let mut t = String::new();
        if b.ctrl {
            t.append("Ctrl+");
        }
        if b.alt {
            t.append("Alt+");
        }
        t.append(b.key);
        proof {
            assert(t@ =~= chord_text(b));
        }
        t
    }

    /// The rows of the keybind hint: a label and the chord it is bound to.
    pub fn help_rows(&self) -> (r: Vec<(&'static str, String)>)
        ensures
            r@.len() == 6,
            r@[0].0@ == "Undo"@ && r@[0].1@ == chord_text(self@.cfg.keybinds.undo),
            r@[1].0@ == "Redo"@ && r@[1].1@ == chord_text(self@.cfg.keybinds.redo),
            r@[2].0@ == "Close pane"@ && r@[2].1@ == chord_text(self@.cfg.keybinds.close),
            r@[3].0@ == "Maximize pane"@ && r@[3].1@ == chord_text(self@.cfg.keybinds.maximize),
            r@[4].0@ == "Toggle this hint"@ && r@[4].1@ == chord_text(self@.cfg.keybinds.help),
            r@[5].0@ == "Inspect pane"@ && r@[5].1@ == "d"@,
    {
        let kb = self.cfg.keybinds;
        let mut rows: Vec<(&'static str, String)> = Vec::new();
        rows.push(("Undo", Self::chord(kb.undo)));
        rows.push(("Redo", Self::chord(kb.redo)));
        rows.push(("Close pane", Self::chord(kb.close)));
        rows.push(("Maximize pane", Self::chord(kb.maximize)));
        rows.push(("Toggle this hint", Self::chord(kb.help)));
        let mut d = String::new();
        d.append("d");
        rows.push(("Inspect pane", d));
        rows
    }

    /// A state whose column count, layout, snapshots, cursor and inspect list are each sound
    /// satisfies the invariant.
    proof fn lemma_frame(&self)
        requires
            self.cols >= 1,
            layout_ok(self@.grid),
            forall|i: int| 0 <= i < self@.history.len() ==> #[trigger] layout_ok(self@.history[i]),
            self.undo.states.len() == 0 ==> self.undo.cursor == 0,
            self.undo.states.len() > 0 ==> self.undo.cursor < self.undo.states.len(),
            self.popups@.no_duplicates(),
        ensures
            self.wf(),
    {
    }

    proof fn lemma_close_ok(&self, id: GroupId)
        requires
            self.wf(),
            closable(self@.grid, id),
        ensures
            ({
                let cs = self@.grid.cells;
                let i = locate(cs, id).unwrap();
                0 <= i < cs.len() && cs[i].group.active < cs[i].group.tabs.len()
            }),
            crate::model::layout::spans_fit(self@.grid.cells),
            total_h(self@.grid.cells) <= u32::MAX,
    {
        let cs = self@.grid.cells;
        crate::model::packed::lemma_locate_from(cs, id, 0);
        assert forall|j: int| 0 <= j < cs.len() implies #[trigger] cs[j].x + cs[j].w <= u32::MAX by {
            assert(cs[j].x + cs[j].w <= u32::MAX && cs[j].y + cs[j].h <= u32::MAX);
        }
    }
}

} // verus!
