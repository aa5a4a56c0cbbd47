//! The packed-grid layout model. Fixed-size tiles sit on an integer step grid: they have a starting
//! size, snap to whole steps, never overlap once settled, and leave whitespace below. Everything is
//! in grid units, so placement and resize are exact integer arithmetic.

use vstd::prelude::*;

use crate::model::distinct::{
    distinct, fresh_group, fresh_panel, ids_below, ids_unique, law_drop_keeps_panels, lemma_add_tab_distinct,
    lemma_close_distinct, lemma_drop_distinct, lemma_drop_ids, lemma_place_distinct, lemma_refit_distinct,
    lemma_resize_distinct, occ_all, source_listed,
};
use crate::model::sizes::{
    heights_met, lemma_drop_mins, lemma_gravity_mins, lemma_mins_edit, lemma_mins_kept, lemma_placed_mins,
    lemma_refit_cell_mins, lemma_reranked_mins, lemma_resized_mins, mins_met, size_ok,
};
use crate::model::group::{Group, GroupView, group_without, group_wf, lemma_first_pos_from, lemma_group_without_wf};
use crate::model::layout::{
    bounded, edges_fit, in_span, is_perm, lemma_total_h_update, lemma_settle_packed, lemma_sort_prefix_perm, lemma_total_h_nonneg,
    max_bottom, no_overlap, packed, rects_meet, rest_height, rests_on, same_but_y, settle, settle_cells,
    sort_indices, sorted_order,
    spans_fit, supported, total_h,
};
use crate::model::{GroupId, PanelId};

verus! {

/// One grid unit: the minimum size and resize increment.
#[derive(Clone, Copy, Debug)]
pub struct Step(pub u32);

impl From<Step> for u32 {
    fn from(s: Step) -> (r: u32) {
        s.0
    }
}

impl vstd::std_specs::convert::FromSpecImpl<Step> for u32 {
    open spec fn obeys_from_spec() -> bool {
        true
    }

    open spec fn from_spec(s: Step) -> u32 {
        s.0
    }
}

/// A placed tile: its tab group, its integer grid rect, and its per-type minimum size.
///
/// `desired_w`/`desired_x` keep the width and left edge a tile wanted when a view too narrow to
/// hold it forced smaller ones, so widening the view restores it; `rank` is the vertical stacking
/// order fixed at the last structural edit, which a reflow settles by.
#[derive(Debug)]
pub struct Cell {
    pub group: Group,
    pub x: u32,
    pub y: u32,
    pub w: u32,
    pub h: u32,
    pub min_w: u32,
    pub min_h: u32,
    pub desired_w: Option<u32>,
    pub desired_x: Option<u32>,
    pub rank: u32,
}

/// The mathematical model of a [`Cell`].
pub struct CellView {
    pub group: GroupView,
    pub x: u32,
    pub y: u32,
    pub w: u32,
    pub h: u32,
    pub min_w: u32,
    pub min_h: u32,
    pub desired_w: Option<u32>,
    pub desired_x: Option<u32>,
    pub rank: u32,
}

impl View for Cell {
    type V = CellView;

    open spec fn view(&self) -> CellView {
        CellView {
            group: self.group@,
            x: self.x,
            y: self.y,
            w: self.w,
            h: self.h,
            min_w: self.min_w,
            min_h: self.min_h,
            desired_w: self.desired_w,
            desired_x: self.desired_x,
            rank: self.rank,
        }
    }
}

/// The models of a list of tiles.
pub open spec fn cell_views(cs: Seq<Cell>) -> Seq<CellView> {
    cs.map_values(|c: Cell| c@)
}

impl Clone for Cell {
    fn clone(&self) -> (r: Self)
        ensures
            r@ == self@,
    {
        Cell {
            group: self.group.clone(),
            x: self.x,
            y: self.y,
            w: self.w,
            h: self.h,
            min_w: self.min_w,
            min_h: self.min_h,
            desired_w: self.desired_w,
            desired_x: self.desired_x,
            rank: self.rank,
        }
    }
}

/// Lifecycle of the grid with respect to user gestures. The packed invariant is claimed only
/// while `Settled`; mid-resize the grip's tile may momentarily cover a neighbour.
#[derive(Clone, Copy, Debug, PartialEq, Eq, Structural)]
pub enum GridState {
    Settled,
    Resizing,
}

impl Default for GridState {
    fn default() -> (r: GridState)
        ensures
            r == GridState::Settled,
    {
        GridState::Settled
    }
}

/// The packed grid: its tiles, its gesture state, and the next group id to hand out.
#[derive(Debug)]
pub struct PackedGrid {
    pub cells: Vec<Cell>,
    pub state: GridState,
    pub next_group_id: u64,
}

/// The mathematical model of a [`PackedGrid`].
pub struct GridView {
    pub cells: Seq<CellView>,
    pub state: GridState,
    pub next_group_id: u64,
}

impl View for PackedGrid {
    type V = GridView;

    open spec fn view(&self) -> GridView {
        GridView { cells: cell_views(self.cells@), state: self.state, next_group_id: self.next_group_id }
    }
}

impl Default for PackedGrid {
    fn default() -> (g: PackedGrid)
        ensures
            g@ == (GridView { cells: Seq::empty(), state: GridState::Settled, next_group_id: 0 }),
    {
        let g = PackedGrid { cells: Vec::new(), state: GridState::Settled, next_group_id: 0 };
        assert(cell_views(g.cells@) =~= Seq::<CellView>::empty());
        g
    }
}

/// What the user picked up: a whole tile, or one tab torn out of a group.
#[derive(Debug)]
pub enum DragSource {
    Tile(GroupId),
    Tab { panel: PanelId, from: GroupId },
}

/// The mathematical model of a [`DragSource`].
pub enum DragSourceView {
    Tile(GroupId),
    Tab { panel: Seq<char>, from: GroupId },
}

impl View for DragSource {
    type V = DragSourceView;

    open spec fn view(&self) -> DragSourceView {
        match self {
            DragSource::Tile(g) => DragSourceView::Tile(*g),
            DragSource::Tab { panel, from } => DragSourceView::Tab { panel: panel@, from: *from },
        }
    }
}

/// The group a drag source currently lives in.
pub open spec fn source_group(s: DragSourceView) -> GroupId {
    match s {
        DragSourceView::Tile(g) => g,
        DragSourceView::Tab { from, .. } => from,
    }
}

impl Clone for DragSource {
    fn clone(&self) -> (r: Self)
        ensures
            r@ == self@,
    {
        match self {
            DragSource::Tile(g) => DragSource::Tile(*g),
            DragSource::Tab { panel, from } => DragSource::Tab { panel: panel.clone(), from: *from },
        }
    }
}

impl PartialEq for DragSource {
    fn eq(&self, other: &Self) -> (r: bool) {
        match (self, other) {
            (DragSource::Tile(a), DragSource::Tile(b)) => *a == *b,
            (DragSource::Tab { panel: p1, from: f1 }, DragSource::Tab { panel: p2, from: f2 }) => *p1 == *p2
                && *f1 == *f2,
            _ => false,
        }
    }
}

impl vstd::std_specs::cmp::PartialEqSpecImpl for DragSource {
    open spec fn obeys_eq_spec() -> bool {
        true
    }

    open spec fn eq_spec(&self, other: &Self) -> bool {
        self@ == other@
    }
}

impl DragSource {
    /// The group the source currently lives in.
    pub fn group(&self) -> (g: GroupId)
        ensures
            g == source_group(self@),
    {
        match self {
            DragSource::Tile(g) => *g,
            DragSource::Tab { from, .. } => *from,
        }
    }
}

/// Where a drag resolves to.
#[derive(Clone, Copy, Debug, PartialEq, Eq, Structural)]
pub enum DropTarget {
    /// Join `group`, inserting the incoming tab(s) at `index`.
    Tab { group: GroupId, index: usize },
    /// Drop a tile at `(x, y)` and shove what lies at or below that row in its columns down.
    Displace { x: u32, y: u32 },
    /// Drop a tile at column `x` onto the skyline.
    Pack { x: u32 },
}

// ------------------------------------------------------------------ specification

/// First tile, from position `k` on, that hosts group `id`.
pub open spec fn locate_from(cs: Seq<CellView>, id: GroupId, k: int) -> Option<int>
    decreases cs.len() - k,
{
    if k < 0 || k >= cs.len() {
        None
    } else if cs[k].group.id == id {
        Some(k)
    } else {
        locate_from(cs, id, k + 1)
    }
}

/// First tile that hosts group `id`, if any.
pub open spec fn locate(cs: Seq<CellView>, id: GroupId) -> Option<int> {
    locate_from(cs, id, 0)
}

/// The tile found from `k` on hosts the group, and no tile before it from `k` on does.
pub proof fn lemma_locate_from(cs: Seq<CellView>, id: GroupId, k: int)
    requires
        0 <= k,
    ensures
        locate_from(cs, id, k) matches Some(i) ==> k <= i < cs.len() && cs[i].group.id == id
            && forall|j: int| k <= j < i ==> cs[j].group.id != id,
        locate_from(cs, id, k) is None ==> forall|j: int| k <= j < cs.len() ==> cs[j].group.id != id,
    decreases cs.len() - k,
{
    if k < cs.len() && cs[k].group.id != id {
        lemma_locate_from(cs, id, k + 1);
    }
}

/// The smaller of two integers.
pub open spec fn min_int(a: int, b: int) -> int {
    if a <= b {
        a
    } else {
        b
    }
}

/// The larger of two integers.
pub open spec fn max_int(a: int, b: int) -> int {
    if a >= b {
        a
    } else {
        b
    }
}

/// `a - b`, floored at 0.
pub open spec fn sat_sub(a: int, b: int) -> int {
    if a >= b {
        a - b
    } else {
        0
    }
}

/// Leftmost of the left edges `0..n` whose skyline is lowest, with that skyline.
pub open spec fn pack_best(cs: Seq<CellView>, w: int, n: int) -> (int, int)
    decreases n,
{
    if n <= 1 {
        (0, rest_height(cs, 0, w))
    } else {
        let b = pack_best(cs, w, n - 1);
        let y = rest_height(cs, n - 1, w);
        if b.1 <= y {
            b
        } else {
            (n - 1, y)
        }
    }
}

/// Where [`pack`] seats a `w`-wide tile in `cols` columns: the placement that grows the stack
/// the least, leftmost on ties.
pub open spec fn pack_spec(cs: Seq<CellView>, w: int, cols: int) -> (int, int) {
    pack_best(cs, w, sat_sub(cols, w) + 1)
}

/// Sort keys of a settle under gravity: row first, the pinned tile ahead of its row peers, then
/// column.
pub open spec fn gravity_keys(cs: Seq<CellView>, pin: Option<usize>) -> Seq<(u64, u64)> {
    Seq::new(
        cs.len(),
        |i: int|
            (
                cs[i].y as u64,
                ((if pin == Some(i as usize) {
                    0int
                } else {
                    0x1_0000_0000int
                }) + cs[i].x) as u64,
            ),
    )
}

/// The grid settled under gravity, with `pin` claiming its row first.
pub open spec fn gravity_spec(cs: Seq<CellView>, pin: Option<usize>) -> Seq<CellView> {
    settle(cs, sorted_order(gravity_keys(cs, pin)))
}

/// Sort keys of the top-to-bottom, then left-to-right stacking order.
pub open spec fn rank_keys(cs: Seq<CellView>) -> Seq<(u64, u64)> {
    Seq::new(cs.len(), |i: int| (cs[i].y as u64, cs[i].x as u64))
}

/// `cs` with the first `k` tiles of `o` given ranks `0..k`.
pub open spec fn with_ranks(cs: Seq<CellView>, o: Seq<usize>, k: int) -> Seq<CellView>
    decreases k,
{
    if k <= 0 {
        cs
    } else {
        let s = with_ranks(cs, o, k - 1);
        let i = o[k - 1] as int;
        s.update(i, CellView { rank: (k - 1) as u32, ..s[i] })
    }
}

/// Each tile ranked by its position in the top-to-bottom stacking order.
pub open spec fn reranked(cs: Seq<CellView>) -> Seq<CellView> {
    with_ranks(cs, sorted_order(rank_keys(cs)), cs.len() as int)
}

/// A tile reflowed into `cols` columns: it aims for its wanted width and left edge, clamps them to
/// the view, and remembers any want the view could not honour.
pub open spec fn refit_cell(c: CellView, cols: int) -> CellView {
    let want_w: int = match c.desired_w {
        Some(v) => v as int,
        None => c.w as int,
    };
    let want_x: int = match c.desired_x {
        Some(v) => v as int,
        None => c.x as int,
    };
    let floor = max_int(min_int(c.min_w as int, cols), 1);
    let eff_w = if want_w < floor {
        floor
    } else if want_w > cols {
        cols
    } else {
        want_w
    };
    let eff_x = min_int(want_x, cols - eff_w);
    CellView {
        w: eff_w as u32,
        x: eff_x as u32,
        desired_w: if eff_w != want_w {
            Some(want_w as u32)
        } else {
            None
        },
        desired_x: if eff_x != want_x {
            Some(want_x as u32)
        } else {
            None
        },
        ..c
    }
}

/// Sort keys of a reflow: the stored rank (ties by index).
pub open spec fn refit_keys(cs: Seq<CellView>) -> Seq<(u64, u64)> {
    Seq::new(cs.len(), |i: int| (cs[i].rank as u64, 0u64))
}

/// Every tile reflowed into `cols` columns, then settled in rank order.
pub open spec fn refit_spec(cs: Seq<CellView>, cols: int) -> Seq<CellView> {
    settle(cs.map_values(|c: CellView| refit_cell(c, cols)), sorted_order(refit_keys(cs)))
}

/// The two grids agree on every tile's rectangle.
pub open spec fn same_rects(a: Seq<CellView>, b: Seq<CellView>) -> bool {
    &&& a.len() == b.len()
    &&& forall|i: int|
        #![trigger a[i]]
        #![trigger b[i]]
        0 <= i < a.len() ==> a[i].x == b[i].x && a[i].y == b[i].y && a[i].w == b[i].w && a[i].h == b[i].h
}

/// The height `place` gives a tile asked `h` steps tall with minimum height `min_h`.
pub open spec fn placed_h(h: u32, min_h: u32) -> int {
    max_int(h as int, min_h as int)
}

/// The tile `place` seats: asked size raised to its minimum, width clamped to the view, the
/// width it wants kept in `desired_w` when the view is narrower.
pub open spec fn placed_cell(cs: Seq<CellView>, g: GroupView, w: u32, h: u32, min: (u32, u32), cols: u32) -> CellView {
    let want_w = max_int(w as int, min.0 as int);
    let eff_w = min_int(want_w, cols as int);
    let (x, y) = pack_spec(cs, eff_w, cols as int);
    CellView {
        group: g,
        x: x as u32,
        y: y as u32,
        w: eff_w as u32,
        h: placed_h(h, min.1) as u32,
        min_w: min.0,
        min_h: min.1,
        desired_w: if eff_w != want_w {
            Some(want_w as u32)
        } else {
            None
        },
        desired_x: None,
        rank: 0,
    }
}

/// The tile `resize` leaves before the grid settles: width clamped to its min and to the view
/// span right of its pinned left edge, height to its min, and its pre-clamp memory dropped.
pub open spec fn resized_cell(c: CellView, new_w: u32, new_h: u32, cols: u32) -> CellView {
    let span = max_int(sat_sub(cols as int, c.x as int), 1);
    CellView {
        w: min_int(max_int(new_w as int, c.min_w as int), span) as u32,
        h: max_int(new_h as int, c.min_h as int) as u32,
        desired_w: None,
        desired_x: None,
        ..c
    }
}


/// The grid after `place` seats `group`.
pub open spec fn place_spec(g: GridView, group: GroupView, w: u32, h: u32, min: (u32, u32), cols: u32) -> GridView {
    GridView { cells: reranked(g.cells.push(placed_cell(g.cells, group, w, h, min, cols))), ..g }
}

/// What `resize` needs: `idx` names a tile and the resized tiles' spans and total height fit.
pub open spec fn resize_ok(g: GridView, idx: usize, new_w: u32, new_h: u32, cols: u32) -> bool {
    &&& idx < g.cells.len()
    &&& spans_fit(g.cells.update(idx as int, resized_cell(g.cells[idx as int], new_w, new_h, cols)))
    &&& total_h(g.cells.update(idx as int, resized_cell(g.cells[idx as int], new_w, new_h, cols))) <= u32::MAX
}

/// The grid after `resize` of tile `idx`.
pub open spec fn resize_spec(g: GridView, idx: usize, new_w: u32, new_h: u32, cols: u32) -> GridView {
    GridView {
        cells: reranked(
            gravity_spec(g.cells.update(idx as int, resized_cell(g.cells[idx as int], new_w, new_h, cols)), Some(idx)),
        ),
        ..g
    }
}

/// The grid after closing the active tab of group `id`: the tab leaves the strip, and a tile left
/// without tabs leaves the grid, the rest settling under gravity.
pub open spec fn close_spec(g: GridView, id: GroupId) -> GridView {
    let i = locate(g.cells, id).unwrap();
    let c = g.cells[i];
    let ng = group_without(c.group, c.group.tabs[c.group.active]);
    if ng.tabs.len() == 0 {
        GridView { cells: reranked(gravity_spec(g.cells.remove(i), None)), ..g }
    } else {
        GridView { cells: g.cells.update(i, CellView { group: ng, ..c }), ..g }
    }
}

/// The grid after `panel` opens as the new, active, last tab of group `id`.
pub open spec fn add_tab_spec(g: GridView, id: GroupId, panel: Seq<char>) -> GridView {
    let i = locate(g.cells, id).unwrap();
    let c = g.cells[i];
    GridView {
        cells: g.cells.update(
            i,
            CellView { group: GroupView { id: c.group.id, tabs: c.group.tabs.push(panel), active: c.group.tabs.len() as int }, ..c },
        ),
        ..g
    }
}

/// `moved` inserted into `dst`'s strip from slot `at`, the last inserted tab active.
pub open spec fn insert_tabs(dst: GroupView, moved: Seq<Seq<char>>, at: int) -> GroupView {
    GroupView {
        id: dst.id,
        tabs: dst.tabs.take(at) + moved + dst.tabs.skip(at),
        active: if moved.len() > 0 {
            at + moved.len() - 1
        } else {
            dst.active
        },
    }
}

/// Dropping onto the source's own group does nothing, unless it tears one tab out of a multi-tab
/// group, which reorders it.
pub open spec fn drop_is_noop(g: GridView, src: DragSourceView, t: DropTarget) -> bool {
    match t {
        DropTarget::Tab { group, .. } => group == source_group(src) && !(src is Tab
            && g.cells[locate(g.cells, source_group(src)).unwrap()].group.tabs.len() > 1),
        _ => false,
    }
}

/// What a drag source detaches: the remaining tiles, the moving group with the size and minimum
/// it inherits, and the next group id. A whole tile leaves the grid; a torn tab leaves its origin
/// (pruned if emptied) and becomes a fresh single-tab group.
pub struct Detached {
    pub cells: Seq<CellView>,
    pub group: GroupView,
    pub w: u32,
    pub h: u32,
    pub min_w: u32,
    pub min_h: u32,
    pub next_group_id: u64,
}

/// What dropping `src` takes out of grid `g` (see [`Detached`]).
pub open spec fn detach(g: GridView, src: DragSourceView) -> Detached {
    let i = locate(g.cells, source_group(src)).unwrap();
    let c = g.cells[i];
    match src {
        DragSourceView::Tile(_) => Detached {
            cells: g.cells.remove(i),
            group: c.group,
            w: c.w,
            h: c.h,
            min_w: c.min_w,
            min_h: c.min_h,
            next_group_id: g.next_group_id,
        },
        DragSourceView::Tab { panel, .. } => {
            let rest = group_without(c.group, panel);
            Detached {
                cells: if rest.tabs.len() == 0 {
                    g.cells.remove(i)
                } else {
                    g.cells.update(i, CellView { group: rest, ..c })
                },
                group: GroupView { id: GroupId(g.next_group_id), tabs: seq![panel], active: 0 },
                w: c.w,
                h: c.h,
                min_w: c.min_w,
                min_h: c.min_h,
                next_group_id: (g.next_group_id + 1) as u64,
            }
        },
    }
}

/// A re-homed tile's left edge, pulled left so it does not spill past `cols`.
pub open spec fn clamp_x(x: u32, cols: u32, w: u32) -> u32 {
    min_int(x as int, sat_sub(cols as int, w as int)) as u32
}

/// A fresh tile for the detached group at `(x, y)`.
pub open spec fn landed(d: Detached, x: u32, y: u32) -> CellView {
    CellView {
        group: d.group,
        x,
        y,
        w: d.w,
        h: d.h,
        min_w: d.min_w,
        min_h: d.min_h,
        desired_w: None,
        desired_x: None,
        rank: 0,
    }
}

/// The tiles after a drop that does something.
pub open spec fn drop_cells(g: GridView, src: DragSourceView, t: DropTarget, cols: u32) -> Seq<CellView> {
    let d = detach(g, src);
    match t {
        DropTarget::Tab { group, index } => {
            let k = locate(d.cells, group).unwrap();
            let dst = d.cells[k];
            let at = min_int(index as int, dst.group.tabs.len() as int);
            reranked(
                gravity_spec(d.cells.update(k, CellView { group: insert_tabs(dst.group, d.group.tabs, at), ..dst }), None),
            )
        },
        DropTarget::Displace { x, y } => reranked(
            gravity_spec(d.cells.push(landed(d, clamp_x(x, cols, d.w), y)), Some(d.cells.len() as usize)),
        ),
        DropTarget::Pack { x } => {
            let x2 = clamp_x(x, cols, d.w);
            reranked(
                gravity_spec(d.cells.push(landed(d, x2, rest_height(d.cells, x2 as int, d.w as int) as u32)), None),
            )
        },
    }
}

/// The grid after dropping `src` on `t` in a `cols`-wide view.
pub open spec fn drop_spec(g: GridView, src: DragSourceView, t: DropTarget, cols: u32) -> GridView {
    if drop_is_noop(g, src, t) {
        g
    } else {
        GridView { cells: drop_cells(g, src, t, cols), state: g.state, next_group_id: detach(g, src).next_group_id }
    }
}

/// A whole tile dropped on its own header: the drop does nothing, whether or not the tile is
/// still in the grid.
pub open spec fn self_drop(src: DragSourceView, t: DropTarget) -> bool {
    src is Tile && (t matches DropTarget::Tab { group, .. } && group == source_group(src))
}

/// What `drop` needs: the source and any target group exist, a torn tab can mint an id, and the
/// tiles (with a torn copy) fit the stored widths. The bound on the summed tile heights (plus the
/// moving tile's) is a conservative machine limit: a settle never puts a bottom edge below that
/// sum, so no edge can pass `u32::MAX`.
pub open spec fn drop_ok(g: GridView, src: DragSourceView, t: DropTarget) -> bool {
    &&& locate(g.cells, source_group(src)) is Some
    &&& t matches DropTarget::Tab { group, .. } ==> locate(g.cells, group) is Some
    &&& src is Tab ==> g.next_group_id < u64::MAX
    &&& edges_fit(g.cells)
    &&& total_h(g.cells) + g.cells[locate(g.cells, source_group(src)).unwrap()].h <= u32::MAX
}

/// Which drop target a pointer resolves to, given the already-snapped landing column `col` and row
/// `row` of the dragged block and the first tile under the pointer with whether the pointer is in
/// its header band.
pub open spec fn target_spec(
    cs: Seq<CellView>,
    src: DragSourceView,
    col: u32,
    row: u32,
    hit: Option<(usize, bool)>,
    cols: u32,
    src_w: u32,
) -> DropTarget {
    let x = min_int(col as int, sat_sub(cols as int, src_w as int)) as u32;
    match hit {
        Some((i, header)) => {
            let c = cs[i as int];
            let self_no_join = c.group.id == source_group(src) && !(src is Tab
                && cs[locate(cs, source_group(src)).unwrap()].group.tabs.len() > 1);
            if header && !self_no_join {
                DropTarget::Tab { group: c.group.id, index: c.group.tabs.len() as usize }
            } else {
                DropTarget::Displace { x, y: (c.y + c.h) as u32 }
            }
        },
        None => if row < rest_height(cs, x as int, src_w as int) {
            DropTarget::Displace { x, y: row }
        } else {
            DropTarget::Pack { x }
        },
    }
}

// ------------------------------------------------------------------ lemmas

proof fn lemma_skyline_ge(cs: Seq<CellView>, x: int, w: int, j: int)
    requires
        0 <= j < cs.len(),
        in_span(cs[j], x, w),
    ensures
        rest_height(cs, x, w) >= cs[j].y + cs[j].h,
    decreases cs.len(),
{
    if j < cs.len() - 1 {
        lemma_skyline_ge(cs.drop_last(), x, w, j);
    }
}

proof fn lemma_skyline_bounds(cs: Seq<CellView>, x: int, w: int)
    ensures
        0 <= rest_height(cs, x, w) <= max_bottom(cs),
        rest_height(cs, x, w) > 0 ==> exists|j: int|
            0 <= j < cs.len() && in_span(cs[j], x, w) && cs[j].y + cs[j].h == rest_height(cs, x, w),
    decreases cs.len(),
{
    if cs.len() > 0 {
        lemma_skyline_bounds(cs.drop_last(), x, w);
        let r = rest_height(cs.drop_last(), x, w);
        if r > 0 && rest_height(cs, x, w) == r {
            let j = choose|j: int|
                0 <= j < cs.drop_last().len() && in_span(cs.drop_last()[j], x, w) && cs.drop_last()[j].y
                    + cs.drop_last()[j].h == r;
            assert(cs[j] == cs.drop_last()[j]);
        }
        if rest_height(cs, x, w) != r {
            assert(cs[cs.len() - 1] == cs.last());
        }
    }
}

proof fn lemma_max_bottom_ge(cs: Seq<CellView>, j: int)
    requires
        0 <= j < cs.len(),
    ensures
        max_bottom(cs) >= cs[j].y + cs[j].h,
    decreases cs.len(),
{
    if j < cs.len() - 1 {
        lemma_max_bottom_ge(cs.drop_last(), j);
    }
}

/// The lowest bottom edge is at most any bound that every tile's bottom edge respects.
pub proof fn lemma_max_bottom_le(cs: Seq<CellView>, b: int)
    requires
        b >= 0,
        forall|i: int| #![trigger cs[i]] 0 <= i < cs.len() ==> cs[i].y + cs[i].h <= b,
    ensures
        max_bottom(cs) <= b,
    decreases cs.len(),
{
    if cs.len() > 0 {
        assert forall|i: int| #![trigger cs.drop_last()[i]] 0 <= i < cs.drop_last().len() implies cs.drop_last()[i].y
            + cs.drop_last()[i].h <= b by {
            assert(cs.drop_last()[i] == cs[i]);
        }
        lemma_max_bottom_le(cs.drop_last(), b);
        assert(cs[cs.len() - 1] == cs.last());
    }
}

/// The packed spot is one of the candidate left edges, and its row is the skyline there.
pub proof fn lemma_pack_best(cs: Seq<CellView>, w: int, n: int)
    requires
        n >= 1,
    ensures
        0 <= pack_best(cs, w, n).0 < n,
        pack_best(cs, w, n).1 == rest_height(cs, pack_best(cs, w, n).0, w),
    decreases n,
{
    if n > 1 {
        lemma_pack_best(cs, w, n - 1);
    }
}

/// Ranking moves no tile.
proof fn lemma_with_ranks(cs: Seq<CellView>, o: Seq<usize>, k: int)
    requires
        0 <= k <= o.len(),
        forall|q: int| 0 <= q < o.len() ==> #[trigger] o[q] < cs.len(),
    ensures
        with_ranks(cs, o, k).len() == cs.len(),
        forall|i: int|
            0 <= i < cs.len() ==> #[trigger] with_ranks(cs, o, k)[i] == (CellView {
                rank: with_ranks(cs, o, k)[i].rank,
                ..cs[i]
            }),
    decreases k,
{
    if k > 0 {
        lemma_with_ranks(cs, o, k - 1);
    }
}

/// Whether a grid is packed, and whether its edges fit, depend only on the tiles' rectangles.
pub proof fn lemma_same_rects(a: Seq<CellView>, b: Seq<CellView>)
    requires
        same_rects(a, b),
    ensures
        packed(a) == packed(b),
        edges_fit(a) == edges_fit(b),
        spans_fit(a) == spans_fit(b),
        total_h(a) == total_h(b),
        max_bottom(a) == max_bottom(b),
        bounded(a) == bounded(b),
    decreases a.len(),
{
    assert(no_overlap(a) == no_overlap(b)) by {
        if no_overlap(a) {
            assert forall|i: int, j: int| 0 <= i < j < b.len() implies !rects_meet(#[trigger] b[i], #[trigger] b[j]) by {
                assert(!rects_meet(a[i], a[j]));
            }
        }
        if no_overlap(b) {
            assert forall|i: int, j: int| 0 <= i < j < a.len() implies !rects_meet(#[trigger] a[i], #[trigger] a[j]) by {
                assert(!rects_meet(b[i], b[j]));
            }
        }
    }
    assert(supported(a) == supported(b)) by {
        if supported(a) {
            assert forall|i: int| 0 <= i < b.len() && #[trigger] b[i].y > 0 implies exists|j: int| rests_on(b, i, j) by {
                assert(a[i].y > 0);
                let j = choose|j: int| rests_on(a, i, j);
                assert(rests_on(b, i, j));
            }
        }
        if supported(b) {
            assert forall|i: int| 0 <= i < a.len() && #[trigger] a[i].y > 0 implies exists|j: int| rests_on(a, i, j) by {
                assert(b[i].y > 0);
                let j = choose|j: int| rests_on(b, i, j);
                assert(rests_on(a, i, j));
            }
        }
    }
    assert(edges_fit(a) == edges_fit(b)) by {
        if edges_fit(a) {
            assert forall|i: int| 0 <= i < b.len() implies #[trigger] b[i].x + b[i].w <= u32::MAX && b[i].y + b[i].h
                <= u32::MAX by {
                assert(a[i].x + a[i].w <= u32::MAX);
            }
        }
        if edges_fit(b) {
            assert forall|i: int| 0 <= i < a.len() implies #[trigger] a[i].x + a[i].w <= u32::MAX && a[i].y + a[i].h
                <= u32::MAX by {
                assert(b[i].x + b[i].w <= u32::MAX);
            }
        }
    }
    assert(spans_fit(a) == spans_fit(b)) by {
        if spans_fit(a) {
            assert forall|i: int| 0 <= i < b.len() implies #[trigger] b[i].x + b[i].w <= u32::MAX by {
                assert(a[i].x + a[i].w <= u32::MAX);
            }
        }
        if spans_fit(b) {
            assert forall|i: int| 0 <= i < a.len() implies #[trigger] a[i].x + a[i].w <= u32::MAX by {
                assert(b[i].x + b[i].w <= u32::MAX);
            }
        }
    }
    if a.len() > 0 {
        assert(same_rects(a.drop_last(), b.drop_last())) by {
            assert forall|i: int| 0 <= i < a.drop_last().len() implies #[trigger] a.drop_last()[i].x == b.drop_last()[i].x
                && a.drop_last()[i].y == b.drop_last()[i].y && a.drop_last()[i].w == b.drop_last()[i].w
                && a.drop_last()[i].h == b.drop_last()[i].h by {
                assert(a[i].x == b[i].x);
            }
        }
        lemma_same_rects(a.drop_last(), b.drop_last());
        assert(a[a.len() - 1].x == b[a.len() - 1].x);
    }
    if bounded(a) {
        assert forall|i: int| 0 <= i < b.len() implies b[i].y + b[i].h <= total_h(b) by {
            assert(a[i].y + a[i].h <= total_h(a));
        }
    }
    if bounded(b) {
        assert forall|i: int| 0 <= i < a.len() implies a[i].y + a[i].h <= total_h(a) by {
            assert(b[i].y + b[i].h <= total_h(b));
        }
    }
}

/// Reranking changes no rectangle.
pub proof fn lemma_reranked(cs: Seq<CellView>)
    requires
        cs.len() <= usize::MAX,
    ensures
        reranked(cs).len() == cs.len(),
        same_rects(reranked(cs), cs),
        forall|i: int|
            0 <= i < cs.len() ==> #[trigger] reranked(cs)[i] == (CellView { rank: reranked(cs)[i].rank, ..cs[i] }),
{
    let o = sorted_order(rank_keys(cs));
    lemma_sort_prefix_perm(rank_keys(cs), cs.len() as int);
    lemma_with_ranks(cs, o, cs.len() as int);
    let r = reranked(cs);
    assert forall|i: int| 0 <= i < cs.len() implies #[trigger] r[i].x == cs[i].x && r[i].y == cs[i].y && r[i].w
        == cs[i].w && r[i].h == cs[i].h by {
        assert(r[i] == CellView { rank: r[i].rank, ..cs[i] });
    }
}

/// A gravity settle moves only rows and leaves the grid packed.
pub proof fn lemma_gravity(cs: Seq<CellView>, pin: Option<usize>)
    requires
        cs.len() <= usize::MAX,
        total_h(cs) <= u32::MAX,
    ensures
        gravity_spec(cs, pin).len() == cs.len(),
        forall|i: int| 0 <= i < cs.len() ==> same_but_y(#[trigger] gravity_spec(cs, pin)[i], cs[i]),
        packed(gravity_spec(cs, pin)),
        edges_fit(gravity_spec(cs, pin)) <== spans_fit(cs),
        bounded(gravity_spec(cs, pin)) <== spans_fit(cs),
        total_h(gravity_spec(cs, pin)) == total_h(cs),
{
    let keys = gravity_keys(cs, pin);
    lemma_sort_prefix_perm(keys, cs.len() as int);
    lemma_settle_packed(cs, sorted_order(keys));
    lemma_settled_fit(cs, sorted_order(keys));
}

/// After a settle every edge fits, and the total height is unchanged.
pub proof fn lemma_settled_fit(cs: Seq<CellView>, o: Seq<usize>)
    requires
        cs.len() <= usize::MAX,
        is_perm(o, cs.len() as int),
        total_h(cs) <= u32::MAX,
    ensures
        spans_fit(cs) ==> edges_fit(settle(cs, o)),
        spans_fit(cs) ==> bounded(settle(cs, o)),
        spans_fit(settle(cs, o)) == spans_fit(cs),
        total_h(settle(cs, o)) == total_h(cs),
{
    lemma_settle_packed(cs, o);
    let s = settle(cs, o);
    lemma_total_h_nonneg(cs);
    assert(total_h(s) == total_h(cs)) by {
        lemma_total_h_same_heights(s, cs);
    }
    assert(spans_fit(s) == spans_fit(cs)) by {
        assert forall|i: int| 0 <= i < s.len() implies s[i].x == cs[i].x && s[i].w == cs[i].w by {
            assert(same_but_y(s[i], cs[i]));
        }
    }
    if spans_fit(cs) {
        assert forall|i: int| 0 <= i < s.len() implies #[trigger] s[i].x + s[i].w <= u32::MAX && s[i].y + s[i].h
            <= u32::MAX by {
            assert(same_but_y(s[i], cs[i]));
            assert(s[i].y + cs[i].h <= total_h(cs));
            assert(cs[i].x + cs[i].w <= u32::MAX);
        }
        assert forall|i: int| 0 <= i < s.len() implies s[i].y + s[i].h <= total_h(s) by {
            assert(same_but_y(s[i], cs[i]));
            assert(s[i].y + cs[i].h <= total_h(cs));
        }
    }
}

/// Grids whose tiles have the same heights, index by index, have the same total height.
pub proof fn lemma_total_h_same_heights(a: Seq<CellView>, b: Seq<CellView>)
    requires
        a.len() == b.len(),
        forall|i: int| 0 <= i < a.len() ==> #[trigger] a[i].h == b[i].h,
    ensures
        total_h(a) == total_h(b),
    decreases a.len(),
{
    if a.len() > 0 {
        lemma_total_h_same_heights(a.drop_last(), b.drop_last());
        assert(a[a.len() - 1].h == b[a.len() - 1].h);
    }
}

/// Adding a tile adds its height to the total.
pub proof fn lemma_total_h_push(cs: Seq<CellView>, c: CellView)
    ensures
        total_h(cs.push(c)) == total_h(cs) + c.h,
{
    assert(cs.push(c).drop_last() =~= cs);
}

/// Taking a tile out takes its height off the total.
pub proof fn lemma_total_h_remove(cs: Seq<CellView>, i: int)
    requires
        0 <= i < cs.len(),
    ensures
        total_h(cs.remove(i)) == total_h(cs) - cs[i].h,
    decreases cs.len(),
{
    if i == cs.len() - 1 {
        assert(cs.remove(i) =~= cs.drop_last());
    } else {
        lemma_total_h_remove(cs.drop_last(), i);
        assert(cs.remove(i).drop_last() =~= cs.drop_last().remove(i));
        assert(cs.remove(i).last() == cs.last());
    }
}

/// A tile placed on the skyline of its columns keeps a packed grid packed.
pub proof fn lemma_push_rested(cs: Seq<CellView>, c: CellView)
    requires
        packed(cs),
        c.y == rest_height(cs, c.x as int, c.w as int),
    ensures
        packed(cs.push(c)),
{
    let s = cs.push(c);
    let n = cs.len() as int;
    assert forall|i: int, j: int| 0 <= i < j < s.len() implies !rects_meet(#[trigger] s[i], #[trigger] s[j]) by {
        if j < n {
            assert(s[i] == cs[i] && s[j] == cs[j]);
        } else {
            assert(s[j] == c && s[i] == cs[i]);
            if in_span(cs[i], c.x as int, c.w as int) {
                lemma_skyline_ge(cs, c.x as int, c.w as int, i);
            }
        }
    }
    assert forall|i: int| 0 <= i < s.len() && #[trigger] s[i].y > 0 implies exists|j: int| rests_on(s, i, j) by {
        if i < n {
            assert(s[i] == cs[i]);
            let j = choose|j: int| rests_on(cs, i, j);
            assert(s[j] == cs[j]);
            assert(rests_on(s, i, j));
        } else {
            lemma_skyline_bounds(cs, c.x as int, c.w as int);
            let j = choose|j: int|
                0 <= j < cs.len() && in_span(cs[j], c.x as int, c.w as int) && cs[j].y + cs[j].h == rest_height(
                    cs,
                    c.x as int,
                    c.w as int,
                );
            assert(s[j] == cs[j]);
            assert(rests_on(s, i, j));
        }
    }
}

/// A tile hosting `id` guarantees that [`locate`] finds one, at or before it.
pub proof fn lemma_locate_some(cs: Seq<CellView>, id: GroupId, j: int)
    requires
        0 <= j < cs.len(),
        cs[j].group.id == id,
    ensures
        locate(cs, id) matches Some(i) && i <= j,
{
    lemma_locate_from(cs, id, 0);
}


/// Taking a tile out keeps the others' edges fitting and lowers the total height by its height.
pub proof fn lemma_remove_fits(cs: Seq<CellView>, i: int)
    requires
        0 <= i < cs.len(),
        edges_fit(cs),
    ensures
        edges_fit(cs.remove(i)),
        spans_fit(cs.remove(i)),
        total_h(cs.remove(i)) == total_h(cs) - cs[i].h,
{
    lemma_total_h_remove(cs, i);
    let r = cs.remove(i);
    assert forall|j: int| 0 <= j < r.len() implies #[trigger] r[j].x + r[j].w <= u32::MAX && r[j].y + r[j].h
        <= u32::MAX by {
        if j < i {
            assert(r[j] == cs[j]);
        } else {
            assert(r[j] == cs[j + 1]);
        }
    }
}

/// Changing a tile's group keeps every rectangle.
pub proof fn lemma_regroup_fits(cs: Seq<CellView>, i: int, g: GroupView)
    requires
        0 <= i < cs.len(),
    ensures
        same_rects(cs.update(i, CellView { group: g, ..cs[i] }), cs),
        edges_fit(cs.update(i, CellView { group: g, ..cs[i] })) == edges_fit(cs),
        spans_fit(cs.update(i, CellView { group: g, ..cs[i] })) == spans_fit(cs),
        total_h(cs.update(i, CellView { group: g, ..cs[i] })) == total_h(cs),
{
    lemma_same_rects(cs.update(i, CellView { group: g, ..cs[i] }), cs);
}

/// What a detach leaves: fitting edges, no added height, and (unless it was a no-op) a target
/// group that still exists.
pub proof fn lemma_detach(g: GridView, src: DragSourceView, t: DropTarget)
    requires
        drop_ok(g, src, t),
    ensures
        edges_fit(detach(g, src).cells),
        spans_fit(detach(g, src).cells),
        total_h(detach(g, src).cells) <= total_h(g.cells),
        detach(g, src).cells.len() <= g.cells.len(),
        total_h(detach(g, src).cells) + detach(g, src).h <= u32::MAX,
        !drop_is_noop(g, src, t) ==> (t matches DropTarget::Tab { group, .. } ==> locate(
            detach(g, src).cells,
            group,
        ) is Some),
{
    let cs = g.cells;
    lemma_locate_from(cs, source_group(src), 0);
    let i = locate(cs, source_group(src)).unwrap();
    let c = cs[i];
    let d = detach(g, src);
    lemma_total_h_nonneg(cs);
    match src {
        DragSourceView::Tile(_) => {
            lemma_remove_fits(cs, i);
        },
        DragSourceView::Tab { panel, .. } => {
            let rest = group_without(c.group, panel);
            if rest.tabs.len() == 0 {
                lemma_remove_fits(cs, i);
            } else {
                lemma_regroup_fits(cs, i, rest);
                assert(spans_fit(cs)) by {
                    assert forall|j: int| 0 <= j < cs.len() implies #[trigger] cs[j].x + cs[j].w <= u32::MAX by {
                        assert(cs[j].x + cs[j].w <= u32::MAX && cs[j].y + cs[j].h <= u32::MAX);
                    }
                }
            }
        },
    }
    if !drop_is_noop(g, src, t) {
        match t {
            DropTarget::Tab { group, .. } => {
                if group == source_group(src) {
                    if let DragSourceView::Tab { panel, .. } = src {
                        let rest = group_without(c.group, panel);
                        crate::model::group::lemma_first_pos_from(c.group.tabs, panel, 0);
                        assert(rest.tabs.len() > 0);
                        assert(d.cells[i].group.id == group);
                        lemma_locate_some(d.cells, group, i);
                    }
                } else {
                    lemma_locate_from(cs, group, 0);
                    let j = locate(cs, group).unwrap();
                    assert(j != i);
                    if d.cells.len() < cs.len() {
                        let j2 = if j < i {
                            j
                        } else {
                            j - 1
                        };
                        assert(d.cells[j2] == cs[j]);
                        lemma_locate_some(d.cells, group, j2);
                    } else {
                        assert(d.cells[j] == cs[j]);
                        lemma_locate_some(d.cells, group, j);
                    }
                }
            },
            _ => {},
        }
    }
}


/// Every tile's group hosts a tab and has its active index in range.
pub open spec fn groups_wf(cs: Seq<CellView>) -> bool {
    forall|i: int| #![trigger cs[i]] 0 <= i < cs.len() ==> group_wf(cs[i].group)
}

/// Grids whose tiles carry the same groups, index by index, agree on group well-formedness.
pub proof fn lemma_groups_kept(a: Seq<CellView>, b: Seq<CellView>)
    requires
        a.len() == b.len(),
        forall|i: int| 0 <= i < a.len() ==> #[trigger] a[i].group == b[i].group,
    ensures
        groups_wf(a) == groups_wf(b),
{
    if groups_wf(a) {
        assert forall|i: int| 0 <= i < b.len() implies group_wf(#[trigger] b[i].group) by {
            assert(a[i].group == b[i].group);
        }
    }
    if groups_wf(b) {
        assert forall|i: int| 0 <= i < a.len() implies group_wf(#[trigger] a[i].group) by {
            assert(a[i].group == b[i].group);
        }
    }
}

/// Well-formed groups survive taking a tile out, replacing a tile's group by a well-formed one,
/// and adding a tile with a well-formed group.
pub proof fn lemma_groups_edit(cs: Seq<CellView>, i: int, c: CellView)
    requires
        groups_wf(cs),
        group_wf(c.group),
    ensures
        0 <= i < cs.len() ==> groups_wf(cs.remove(i)),
        0 <= i < cs.len() ==> groups_wf(cs.update(i, c)),
        groups_wf(cs.push(c)),
{
    if 0 <= i < cs.len() {
        let r = cs.remove(i);
        assert forall|j: int| 0 <= j < r.len() implies group_wf(#[trigger] r[j].group) by {
            if j < i {
                assert(r[j] == cs[j]);
            } else {
                assert(r[j] == cs[j + 1]);
            }
        }
        let u = cs.update(i, c);
        assert forall|j: int| 0 <= j < u.len() implies group_wf(#[trigger] u[j].group) by {
            if j != i {
                assert(u[j] == cs[j]);
            }
        }
    }
    let p = cs.push(c);
    assert forall|j: int| 0 <= j < p.len() implies group_wf(#[trigger] p[j].group) by {
        if j < cs.len() {
            assert(p[j] == cs[j]);
        }
    }
}

/// Settling under gravity and reranking keep every tile's group.
pub proof fn lemma_gravity_groups(cs: Seq<CellView>, pin: Option<usize>)
    requires
        cs.len() <= usize::MAX,
        total_h(cs) <= u32::MAX,
    ensures
        groups_wf(reranked(gravity_spec(cs, pin))) == groups_wf(cs),
{
    lemma_gravity(cs, pin);
    let g = gravity_spec(cs, pin);
    lemma_reranked(g);
    let r = reranked(g);
    assert forall|i: int| 0 <= i < r.len() implies #[trigger] r[i].group == cs[i].group by {
        assert(r[i] == CellView { rank: r[i].rank, ..g[i] });
        assert(same_but_y(g[i], cs[i]));
    }
    lemma_groups_kept(r, cs);
}

/// Inserting a non-empty run of tabs into a well-formed group, at a slot within its strip, keeps
/// it well formed.
pub proof fn lemma_insert_tabs_wf(dst: GroupView, moved: Seq<Seq<char>>, at: int)
    requires
        group_wf(dst),
        moved.len() > 0,
        0 <= at <= dst.tabs.len(),
    ensures
        group_wf(insert_tabs(dst, moved, at)),
{
}

/// A detach from well-formed groups leaves well-formed groups, and moves a well-formed group.
pub proof fn lemma_detach_groups(g: GridView, src: DragSourceView)
    requires
        locate(g.cells, source_group(src)) is Some,
        groups_wf(g.cells),
    ensures
        groups_wf(detach(g, src).cells),
        group_wf(detach(g, src).group),
{
    let cs = g.cells;
    lemma_locate_from(cs, source_group(src), 0);
    let i = locate(cs, source_group(src)).unwrap();
    let c = cs[i];
    assert(group_wf(c.group));
    match src {
        DragSourceView::Tile(_) => {
            lemma_groups_edit(cs, i, c);
        },
        DragSourceView::Tab { panel, .. } => {
            let rest = group_without(c.group, panel);
            if rest.tabs.len() == 0 {
                lemma_groups_edit(cs, i, c);
            } else {
                lemma_group_without_wf(c.group, panel);
                lemma_groups_edit(cs, i, CellView { group: rest, ..c });
            }
        },
    }
}

/// A drop that does something keeps every group well formed.
pub proof fn lemma_drop_groups(g: GridView, src: DragSourceView, t: DropTarget, cols: u32)
    requires
        drop_ok(g, src, t),
        !drop_is_noop(g, src, t),
        groups_wf(g.cells),
        t is Tab ==> detach(g, src).cells.len() <= usize::MAX,
        !(t is Tab) ==> detach(g, src).cells.len() + 1 <= usize::MAX,
    ensures
        groups_wf(drop_cells(g, src, t, cols)),
{
    lemma_detach(g, src, t);
    lemma_detach_groups(g, src);
    let d = detach(g, src);
    match t {
        DropTarget::Tab { group, index } => {
            lemma_locate_from(d.cells, group, 0);
            let k = locate(d.cells, group).unwrap();
            let dst = d.cells[k];
            let at = min_int(index as int, dst.group.tabs.len() as int);
            assert(group_wf(dst.group));
            lemma_insert_tabs_wf(dst.group, d.group.tabs, at);
            let nc = CellView { group: insert_tabs(dst.group, d.group.tabs, at), ..dst };
            lemma_groups_edit(d.cells, k, nc);
            let r = d.cells.update(k, nc);
            lemma_regroup_fits(d.cells, k, nc.group);
            lemma_gravity_groups(r, None);
        },
        DropTarget::Displace { x, y } => {
            let c = landed(d, clamp_x(x, cols, d.w), y);
            lemma_groups_edit(d.cells, -1, c);
            lemma_total_h_push(d.cells, c);
            lemma_gravity_groups(d.cells.push(c), Some(d.cells.len() as usize));
        },
        DropTarget::Pack { x } => {
            let x2 = clamp_x(x, cols, d.w);
            let c = landed(d, x2, rest_height(d.cells, x2 as int, d.w as int) as u32);
            lemma_groups_edit(d.cells, -1, c);
            lemma_total_h_push(d.cells, c);
            lemma_gravity_groups(d.cells.push(c), None);
        },
    }
}

/// Every tile lies within the first `cols` columns.
pub open spec fn within_cols(cs: Seq<CellView>, cols: int) -> bool {
    forall|i: int| 0 <= i < cs.len() ==> #[trigger] cs[i].x + cs[i].w <= cols
}

/// Grids whose tiles agree on their columns, index by index, agree on lying within `cols`.
pub proof fn lemma_within_kept(a: Seq<CellView>, b: Seq<CellView>, cols: int)
    requires
        a.len() == b.len(),
        forall|i: int| 0 <= i < a.len() ==> (#[trigger] a[i]).x == b[i].x && a[i].w == b[i].w,
    ensures
        within_cols(a, cols) == within_cols(b, cols),
{
    if within_cols(a, cols) {
        assert forall|i: int| 0 <= i < b.len() implies #[trigger] b[i].x + b[i].w <= cols by {
            assert(a[i].x == b[i].x && a[i].w == b[i].w);
        }
    }
    if within_cols(b, cols) {
        assert forall|i: int| 0 <= i < a.len() implies #[trigger] a[i].x + a[i].w <= cols by {
            assert(a[i].x == b[i].x && a[i].w == b[i].w);
        }
    }
}

/// Taking a tile out, replacing one by a tile within `cols`, or adding one keeps every tile within
/// `cols` columns.
pub proof fn lemma_within_edit(cs: Seq<CellView>, i: int, c: CellView, cols: int)
    requires
        within_cols(cs, cols),
        c.x + c.w <= cols,
    ensures
        0 <= i < cs.len() ==> within_cols(cs.remove(i), cols),
        0 <= i < cs.len() ==> within_cols(cs.update(i, c), cols),
        within_cols(cs.push(c), cols),
{
    if 0 <= i < cs.len() {
        let r = cs.remove(i);
        assert forall|j: int| 0 <= j < r.len() implies #[trigger] r[j].x + r[j].w <= cols by {
            if j < i {
                assert(r[j] == cs[j]);
            } else {
                assert(r[j] == cs[j + 1]);
            }
        }
        let u = cs.update(i, c);
        assert forall|j: int| 0 <= j < u.len() implies #[trigger] u[j].x + u[j].w <= cols by {
            if j != i {
                assert(u[j] == cs[j]);
            }
        }
    }
    let p = cs.push(c);
    assert forall|j: int| 0 <= j < p.len() implies #[trigger] p[j].x + p[j].w <= cols by {
        if j < cs.len() {
            assert(p[j] == cs[j]);
        }
    }
}

/// Settling under gravity and reranking keep every tile in its columns.
pub proof fn lemma_gravity_within(cs: Seq<CellView>, pin: Option<usize>, cols: int)
    requires
        cs.len() <= usize::MAX,
        total_h(cs) <= u32::MAX,
    ensures
        within_cols(reranked(gravity_spec(cs, pin)), cols) == within_cols(cs, cols),
{
    lemma_gravity(cs, pin);
    let g = gravity_spec(cs, pin);
    lemma_reranked(g);
    let r = reranked(g);
    assert forall|i: int| 0 <= i < r.len() implies (#[trigger] r[i]).x == cs[i].x && r[i].w == cs[i].w by {
        assert(r[i] == CellView { rank: r[i].rank, ..g[i] });
        assert(same_but_y(g[i], cs[i]));
    }
    lemma_within_kept(r, cs, cols);
}

/// A drop that does something keeps every tile within `cols` columns.
pub proof fn lemma_drop_within(g: GridView, src: DragSourceView, t: DropTarget, cols: u32)
    requires
        drop_ok(g, src, t),
        !drop_is_noop(g, src, t),
        within_cols(g.cells, cols as int),
        t is Tab ==> detach(g, src).cells.len() <= usize::MAX,
        !(t is Tab) ==> detach(g, src).cells.len() + 1 <= usize::MAX,
    ensures
        within_cols(drop_cells(g, src, t, cols), cols as int),
{
    lemma_detach(g, src, t);
    let cs = g.cells;
    lemma_locate_from(cs, source_group(src), 0);
    let i = locate(cs, source_group(src)).unwrap();
    let c = cs[i];
    let d = detach(g, src);
    assert(c.x + c.w <= cols);
    match src {
        DragSourceView::Tile(_) => {
            lemma_within_edit(cs, i, c, cols as int);
        },
        DragSourceView::Tab { panel, .. } => {
            let rest = group_without(c.group, panel);
            lemma_within_edit(cs, i, CellView { group: rest, ..c }, cols as int);
        },
    }
    assert(within_cols(d.cells, cols as int));
    assert(d.w == c.w);
    match t {
        DropTarget::Tab { group, index } => {
            lemma_locate_from(d.cells, group, 0);
            let k = locate(d.cells, group).unwrap();
            let dst = d.cells[k];
            let at = min_int(index as int, dst.group.tabs.len() as int);
            let nc = CellView { group: insert_tabs(dst.group, d.group.tabs, at), ..dst };
            lemma_within_edit(d.cells, k, nc, cols as int);
            let r = d.cells.update(k, nc);
            lemma_regroup_fits(d.cells, k, nc.group);
            lemma_gravity_within(r, None, cols as int);
        },
        DropTarget::Displace { x, y } => {
            let lc = landed(d, clamp_x(x, cols, d.w), y);
            lemma_within_edit(d.cells, -1, lc, cols as int);
            lemma_total_h_push(d.cells, lc);
            lemma_gravity_within(d.cells.push(lc), Some(d.cells.len() as usize), cols as int);
        },
        DropTarget::Pack { x } => {
            let x2 = clamp_x(x, cols, d.w);
            let lc = landed(d, x2, rest_height(d.cells, x2 as int, d.w as int) as u32);
            lemma_within_edit(d.cells, -1, lc, cols as int);
            lemma_total_h_push(d.cells, lc);
            lemma_gravity_within(d.cells.push(lc), None, cols as int);
        },
    }
}

// ------------------------------------------------------------------ operations

/// Rest height for a `w`-wide tile whose left edge is `x`: the lowest bottom edge of the tiles
/// spanning columns `[x, x + w)`, else 0.
pub fn skyline(cells: &[Cell], x: u32, w: u32) -> (y: u32)
    requires
        x + w <= u32::MAX,
        edges_fit(cell_views(cells@)),
    ensures
        y == rest_height(cell_views(cells@), x as int, w as int),
{
    let ghost cs = cell_views(cells@);
    let mut y: u32 = 0;
    let mut i: usize = 0;
    while i < cells.len()
        invariant
            i <= cells@.len(),
            cs == cell_views(cells@),
            x + w <= u32::MAX,
            edges_fit(cs),
            y == rest_height(cs.take(i as int), x as int, w as int),
        decreases cells@.len() - i,
    {
        proof {
            assert(cs.take(i as int + 1).drop_last() =~= cs.take(i as int));
            assert(cs.take(i as int + 1).last() == cs[i as int]);
            assert(cs[i as int].x + cs[i as int].w <= u32::MAX);
        }
        let c = &cells[i];
        if c.x < x + w && x < c.x + c.w && c.y + c.h > y {
            y = c.y + c.h;
        }
        i += 1;
    }
    proof {
        assert(cs.take(cells@.len() as int) =~= cs);
    }
    y
}

/// Choose `(x, y)` for a `w`-wide, `h`-tall tile in `cols` columns: the skyline placement that
/// grows the layout's lowest point the least, leftmost on ties.
pub fn pack(cells: &[Cell], w: u32, h: u32, cols: u32) -> (r: (u32, u32))
    requires
        edges_fit(cell_views(cells@)),
        max_bottom(cell_views(cells@)) + h <= u32::MAX,
    ensures
        r.0 as int == pack_spec(cell_views(cells@), w as int, cols as int).0,
        r.1 as int == pack_spec(cell_views(cells@), w as int, cols as int).1,
{
    let ghost cs = cell_views(cells@);
    let hi = cols.saturating_sub(w);
    proof {
        lemma_skyline_bounds(cs, 0, w as int);
    }
    let mut best: (u32, u32) = (0, skyline(cells, 0, w));
    let mut k: u64 = 1;
    while k <= hi as u64
        invariant
            1 <= k <= hi as u64 + 1,
            hi == sat_sub(cols as int, w as int),
            cs == cell_views(cells@),
            edges_fit(cs),
            max_bottom(cs) + h <= u32::MAX,
            best.0 as int == pack_best(cs, w as int, k as int).0,
            best.1 as int == pack_best(cs, w as int, k as int).1,
            best.1 <= max_bottom(cs),
            best.0 < k,
        decreases hi as u64 + 1 - k,
    {
        let x = k as u32;
        proof {
            lemma_skyline_bounds(cs, x as int, w as int);
        }
        let y = skyline(cells, x, w);
        if best.1 + h < y + h || (best.1 + h == y + h && best.0 <= x) {
        } else {
            best = (x, y);
        }
        k += 1;
    }
    best
}

/// Settle the grid by pulling every tile upward until it rests on the skyline of the tiles above
/// it in its columns. Tiles are processed top to bottom; `pin` sorts ahead of every tile starting
/// on its row, so it claims that row first and its row peers settle onto it.
pub fn gravity(cells: &mut Vec<Cell>, pin: Option<usize>)
    requires
        spans_fit(cell_views(old(cells)@)),
        total_h(cell_views(old(cells)@)) <= u32::MAX,
    ensures
        cell_views(final(cells)@) == gravity_spec(cell_views(old(cells)@), pin),
        packed(cell_views(final(cells)@)),
        bounded(cell_views(final(cells)@)),
        forall|i: int| 0 <= i < final(cells)@.len() ==> same_but_y(
            #[trigger] cell_views(final(cells)@)[i],
            cell_views(old(cells)@)[i],
        ),
{
    let ghost cs = cell_views(cells@);
    let n = cells.len();
    let mut keys: Vec<(u64, u64)> = Vec::new();
    let mut i: usize = 0;
    while i < n
        invariant
            i <= n,
            n == cells@.len(),
            cs == cell_views(cells@),
            keys@ == gravity_keys(cs, pin).take(i as int),
        decreases n - i,
    {
        let flag: u64 = if pin == Some(i) {
            0
        } else {
            0x1_0000_0000
        };
        keys.push((cells[i].y as u64, flag + cells[i].x as u64));
        proof {
            assert(keys@ =~= gravity_keys(cs, pin).take(i as int + 1));
        }
        i += 1;
    }
    proof {
        assert(keys@ =~= gravity_keys(cs, pin));
    }
    let order = sort_indices(&keys);
    settle_cells(cells, &order);
    proof {
        lemma_gravity(cs, pin);
    }
}

impl PackedGrid {
    /// Hand out the next group id.
    pub fn mint_group_id(&mut self) -> (id: GroupId)
        requires
            old(self).next_group_id < u64::MAX,
        ensures
            id == GroupId(old(self).next_group_id),
            final(self)@ == (GridView { next_group_id: (old(self).next_group_id + 1) as u64, ..old(self)@ }),
    {
        let id = GroupId(self.next_group_id);
        self.next_group_id = self.next_group_id + 1;
        id
    }

    /// Index of the first tile hosting group `id`.
    pub fn locate(&self, id: GroupId) -> (r: Option<usize>)
        ensures
            r matches Some(i) ==> locate(self@.cells, id) == Some(i as int) && i < self.cells@.len(),
            r is None ==> locate(self@.cells, id) is None,
    {
        let ghost cs = self@.cells;
        let mut i: usize = 0;
        while i < self.cells.len()
            invariant
                i <= self.cells@.len(),
                cs == self@.cells,
                locate(cs, id) == locate_from(cs, id, i as int),
            decreases self.cells@.len() - i,
        {
            if self.cells[i].group.id == id {
                proof {
                    lemma_locate_from(cs, id, 0);
                }
                return Some(i);
            }
            i += 1;
        }
        None
    }

    /// Record the current top-to-bottom stacking order onto each tile's `rank`.
    pub fn reassign_ranks(&mut self)
        ensures
            final(self)@ == (GridView { cells: reranked(old(self)@.cells), ..old(self)@ }),
    {
        let ghost cs = self@.cells;
        let n = self.cells.len();
        let mut keys: Vec<(u64, u64)> = Vec::new();
        let mut i: usize = 0;
        while i < n
            invariant
                i <= n,
                n == self.cells@.len(),
                cs == self@.cells,
                keys@ == rank_keys(cs).take(i as int),
            decreases n - i,
        {
            keys.push((self.cells[i].y as u64, self.cells[i].x as u64));
            proof {
                assert(keys@ =~= rank_keys(cs).take(i as int + 1));
            }
            i += 1;
        }
        proof {
            assert(keys@ =~= rank_keys(cs));
        }
        let order = sort_indices(&keys);
        let ghost o = order@;
        let mut k: usize = 0;
        while k < n
            invariant
                k <= n,
                n == self.cells@.len(),
                n == cs.len(),
                o == order@,
                is_perm(o, n as int),
                self@ == (GridView { cells: with_ranks(cs, o, k as int), ..old(self)@ }),
            decreases n - k,
        {
            let i = order[k];
            proof {
                lemma_with_ranks(cs, o, k as int);
            }
            self.cells[i].rank = k as u32;
            proof {
                assert(self@.cells =~= with_ranks(cs, o, k as int + 1));
            }
            k += 1;
        }
    }

    /// Auto-pack `group` at the [`pack`]-chosen spot, storing its resolved per-type minimum. The
    /// asked size is raised to that minimum; a tile wider than the view is clamped to fit, its
    /// wanted width kept in `desired_w`.
    pub fn place(&mut self, group: Group, w: u32, h: u32, min: (u32, u32), cols: u32)
        requires
            edges_fit(old(self)@.cells),
            max_bottom(old(self)@.cells) + placed_h(h, min.1) <= u32::MAX,
        ensures
            final(self)@ == (GridView {
                cells: reranked(old(self)@.cells.push(placed_cell(old(self)@.cells, group@, w, h, min, cols))),
                ..old(self)@
            }),
            edges_fit(final(self)@.cells),
            forall|i: int| 0 <= i < final(self)@.cells.len() ==> #[trigger] final(self)@.cells[i].x + final(self)@.cells[i].w <= cols
                <== (forall|i: int| 0 <= i < old(self)@.cells.len() ==> #[trigger] old(self)@.cells[i].x + old(self)@.cells[i].w <= cols),
            packed(old(self)@.cells) ==> packed(final(self)@.cells),
            bounded(old(self)@.cells) && total_h(old(self)@.cells) + placed_h(h, min.1) <= u32::MAX ==> bounded(
                final(self)@.cells,
            ),
            groups_wf(old(self)@.cells) && group_wf(group@) ==> groups_wf(final(self)@.cells),
            final(self)@ == place_spec(old(self)@, group@, w, h, min, cols),
            distinct(old(self)@) && fresh_group(old(self)@, group@) ==> distinct(final(self)@),
            mins_met(old(self)@.cells, cols as int) ==> mins_met(final(self)@.cells, cols as int),
    {
        let ghost cs = self@.cells;
        let ghost gv = group@;
        let want_w = if w >= min.0 {
            w
        } else {
            min.0
        };
        let eff_w = if want_w <= cols {
            want_w
        } else {
            cols
        };
        let eff_h = if h >= min.1 {
            h
        } else {
            min.1
        };
        let (x, y) = pack(self.cells.as_slice(), eff_w, eff_h, cols);
        let ghost c = placed_cell(cs, gv, w, h, min, cols);
        proof {
            lemma_pack_best(cs, eff_w as int, sat_sub(cols as int, eff_w as int) + 1);
            lemma_skyline_bounds(cs, x as int, eff_w as int);
        }
        self.cells.push(
            Cell {
                group,
                x,
                y,
                w: eff_w,
                h: eff_h,
                min_w: min.0,
                min_h: min.1,
                desired_w: if eff_w != want_w {
                    Some(want_w)
                } else {
                    None
                },
                desired_x: None,
                rank: 0,
            },
        );
        let _n = self.cells.len();
        proof {
            if distinct(old(self)@) && fresh_group(old(self)@, gv) {
                lemma_place_distinct(old(self)@, gv, w, h, min, cols);
            }
            if mins_met(cs, cols as int) {
                lemma_placed_mins(cs, gv, w, h, min, cols);
                lemma_mins_edit(cs, -1, c, cols as int);
                lemma_reranked_mins(cs.push(c), cols as int);
            }
            assert(self@.cells =~= cs.push(c));
            lemma_reranked(cs.push(c));
            lemma_same_rects(reranked(cs.push(c)), cs.push(c));
            assert(edges_fit(cs.push(c))) by {
                assert forall|i: int| 0 <= i < cs.push(c).len() implies #[trigger] cs.push(c)[i].x + cs.push(c)[i].w
                    <= u32::MAX && cs.push(c)[i].y + cs.push(c)[i].h <= u32::MAX by {
                    if i < cs.len() {
                        assert(cs.push(c)[i] == cs[i]);
                    }
                }
            }
            if packed(cs) {
                lemma_push_rested(cs, c);
            }
            if bounded(cs) && total_h(cs) + placed_h(h, min.1) <= u32::MAX {
                lemma_total_h_nonneg(cs);
                lemma_max_bottom_le(cs, total_h(cs));
                lemma_total_h_push(cs, c);
                let p = cs.push(c);
                assert forall|i: int| 0 <= i < p.len() implies p[i].y + p[i].h <= total_h(p) by {
                    if i < cs.len() {
                        assert(p[i] == cs[i]);
                    }
                }
            }
        }
        self.reassign_ranks();
        proof {
            let r = self@.cells;
            if groups_wf(cs) && group_wf(gv) {
                lemma_groups_edit(cs, -1, c);
                assert forall|i: int| 0 <= i < r.len() implies #[trigger] r[i].group == cs.push(c)[i].group by {
                    assert(r[i] == CellView { rank: r[i].rank, ..cs.push(c)[i] });
                }
                lemma_groups_kept(r, cs.push(c));
            }
            if forall|i: int| 0 <= i < cs.len() ==> #[trigger] cs[i].x + cs[i].w <= cols {
                assert forall|i: int| 0 <= i < r.len() implies #[trigger] r[i].x + r[i].w <= cols by {
                    if i < cs.len() {
                        assert(cs.push(c)[i] == cs[i]);
                    }
                    assert(r[i].x == cs.push(c)[i].x && r[i].w == cs.push(c)[i].w);
                }
            }
        }
    }

    /// Resize tile `idx` by its bottom-right grip (top-left pinned). Width is bound to the view
    /// span right of the pinned edge (even below the tile's minimum), height only to its minimum;
    /// then the grid settles under gravity with the resized tile claiming its row first, so growing
    /// pushes the stack below down and shrinking lets it rise.
    pub fn resize(&mut self, idx: usize, new_w: u32, new_h: u32, cols: u32)
        requires
            idx < old(self).cells.len(),
            spans_fit(old(self)@.cells.update(idx as int, resized_cell(old(self)@.cells[idx as int], new_w, new_h, cols))),
            total_h(old(self)@.cells.update(idx as int, resized_cell(old(self)@.cells[idx as int], new_w, new_h, cols)))
                <= u32::MAX,
        ensures
            final(self)@ == (GridView {
                cells: reranked(
                    gravity_spec(
                        old(self)@.cells.update(idx as int, resized_cell(old(self)@.cells[idx as int], new_w, new_h, cols)),
                        Some(idx),
                    ),
                ),
                ..old(self)@
            }),
            packed(final(self)@.cells),
            edges_fit(final(self)@.cells),
            bounded(final(self)@.cells),
            groups_wf(final(self)@.cells) == groups_wf(old(self)@.cells),
            final(self)@ == resize_spec(old(self)@, idx, new_w, new_h, cols),
            within_cols(old(self)@.cells, cols as int) && old(self)@.cells[idx as int].x < cols ==> within_cols(
                final(self)@.cells,
                cols as int,
            ),
            distinct(old(self)@) ==> distinct(final(self)@),
            mins_met(old(self)@.cells, cols as int) && within_cols(old(self)@.cells, cols as int) ==> mins_met(
                final(self)@.cells,
                cols as int,
            ),
    {
        let ghost cs = self@.cells;
        let x = self.cells[idx].x;
        let min_w = self.cells[idx].min_w;
        let min_h = self.cells[idx].min_h;
        let sub = cols.saturating_sub(x);
        let span = if sub >= 1 {
            sub
        } else {
            1
        };
        let grown = if new_w >= min_w {
            new_w
        } else {
            min_w
        };
        self.cells[idx].w = if grown <= span {
            grown
        } else {
            span
        };
        self.cells[idx].h = if new_h >= min_h {
            new_h
        } else {
            min_h
        };
        self.cells[idx].desired_w = None;
        self.cells[idx].desired_x = None;
        let ghost r = cs.update(idx as int, resized_cell(cs[idx as int], new_w, new_h, cols));
        proof {
            assert(self@.cells =~= r);
        }
        gravity(&mut self.cells, Some(idx));
        let _n = self.cells.len();
        proof {
            lemma_gravity(r, Some(idx));
            lemma_reranked(gravity_spec(r, Some(idx)));
            lemma_same_rects(reranked(gravity_spec(r, Some(idx))), gravity_spec(r, Some(idx)));
            lemma_gravity_groups(r, Some(idx));
            assert forall|j: int| 0 <= j < r.len() implies #[trigger] r[j].group == cs[j].group by {
                if j != idx {
                    assert(r[j] == cs[j]);
                }
            }
            lemma_groups_kept(r, cs);
            if distinct(old(self)@) {
                lemma_resize_distinct(old(self)@, idx, new_w, new_h, cols);
            }
            if mins_met(cs, cols as int) && within_cols(cs, cols as int) {
                lemma_resized_mins(cs[idx as int], new_w, new_h, cols);
                lemma_mins_edit(cs, idx as int, resized_cell(cs[idx as int], new_w, new_h, cols), cols as int);
                lemma_gravity_mins(r, Some(idx), cols as int);
            }
            lemma_gravity_within(r, Some(idx), cols as int);
            if within_cols(cs, cols as int) && cs[idx as int].x < cols {
                lemma_within_edit(cs, idx as int, resized_cell(cs[idx as int], new_w, new_h, cols), cols as int);
            }
        }
        self.reassign_ranks();
    }

    /// Reflow every tile into `cols` columns, then settle in the stored stacking order. Each tile
    /// aims for its wanted width and left edge (`desired_*` when a narrower view clamped it, else
    /// its current ones), clamps them to the view, and keeps any leftover want in `desired_*`.
    ///
    /// The bound on the summed tile heights is a conservative machine limit: it guarantees that no
    /// settled bottom edge can pass `u32::MAX`, which a settle never reaches below that sum.
    pub fn refit(&mut self, cols: u32)
        requires
            cols >= 1 || old(self)@.cells.len() == 0,
            total_h(old(self)@.cells) <= u32::MAX,
        ensures
            final(self)@ == (GridView { cells: refit_spec(old(self)@.cells, cols as int), ..old(self)@ }),
            packed(final(self)@.cells),
            edges_fit(final(self)@.cells),
            bounded(final(self)@.cells),
            forall|i: int| 0 <= i < final(self)@.cells.len() ==> #[trigger] final(self)@.cells[i].x + final(self)@.cells[i].w <= cols,
            groups_wf(final(self)@.cells) == groups_wf(old(self)@.cells),
            distinct(old(self)@) ==> distinct(final(self)@),
            heights_met(old(self)@.cells) ==> mins_met(final(self)@.cells, cols as int),
    {
        let ghost cs = self@.cells;
        let ghost m = cs.map_values(|c: CellView| refit_cell(c, cols as int));
        let n = self.cells.len();
        proof {
            if distinct(old(self)@) {
                lemma_refit_distinct(old(self)@, cols as int);
            }
        }
        let mut i: usize = 0;
        while i < n
            invariant
                i <= n,
                n == cs.len(),
                cols >= 1 || n == 0,
                self@.cells.len() == n,
                self@.state == old(self)@.state,
                self@.next_group_id == old(self)@.next_group_id,
                forall|j: int| 0 <= j < i ==> #[trigger] self@.cells[j] == refit_cell(cs[j], cols as int),
                forall|j: int| i <= j < n ==> #[trigger] self@.cells[j] == cs[j],
            decreases n - i,
        {
            let ghost before = self@.cells;
            assert(before[i as int] == cs[i as int]);
            let want_w = match self.cells[i].desired_w {
                Some(v) => v,
                None => self.cells[i].w,
            };
            let want_x = match self.cells[i].desired_x {
                Some(v) => v,
                None => self.cells[i].x,
            };
            let mw = self.cells[i].min_w;
            let low = if mw <= cols {
                mw
            } else {
                cols
            };
            let floor = if low >= 1 {
                low
            } else {
                1
            };
            let eff_w = if want_w < floor {
                floor
            } else if want_w > cols {
                cols
            } else {
                want_w
            };
            let room = cols - eff_w;
            let eff_x = if want_x <= room {
                want_x
            } else {
                room
            };
            self.cells[i].desired_w = if eff_w != want_w {
                Some(want_w)
            } else {
                None
            };
            self.cells[i].desired_x = if eff_x != want_x {
                Some(want_x)
            } else {
                None
            };
            self.cells[i].w = eff_w;
            self.cells[i].x = eff_x;
            proof {
                let rc = refit_cell(cs[i as int], cols as int);
                let now = self@.cells[i as int];
                assert(now.w == rc.w);
                assert(now.x == rc.x);
                assert(now.desired_w == rc.desired_w);
                assert(now.desired_x == rc.desired_x);
                assert(now.group == rc.group);
                assert(now.y == rc.y);
                assert(self@.cells[i as int] == refit_cell(cs[i as int], cols as int));
                assert(self@.cells =~= before.update(i as int, refit_cell(cs[i as int], cols as int)));
            }
            i += 1;
        }
        proof {
            assert(self@.cells =~= m);
        }
        let mut keys: Vec<(u64, u64)> = Vec::new();
        let mut k: usize = 0;
        while k < n
            invariant
                k <= n,
                n == cs.len(),
                self@.cells == m,
                self.cells@.len() == n,
                m == cs.map_values(|c: CellView| refit_cell(c, cols as int)),
                keys@ == refit_keys(cs).take(k as int),
            decreases n - k,
        {
            proof {
                assert(m[k as int].rank == cs[k as int].rank);
            }
            keys.push((self.cells[k].rank as u64, 0));
            proof {
                assert(keys@ =~= refit_keys(cs).take(k as int + 1));
            }
            k += 1;
        }
        proof {
            assert(keys@ =~= refit_keys(cs));
            assert forall|j: int| 0 <= j < m.len() implies #[trigger] m[j].h == cs[j].h by {}
            lemma_total_h_same_heights(m, cs);
            assert forall|j: int| 0 <= j < m.len() implies #[trigger] m[j].x + m[j].w <= cols by {}
            assert(spans_fit(m));
        }
        let order = sort_indices(&keys);
        settle_cells(&mut self.cells, &order);
        proof {
            lemma_settle_packed(m, order@);
            lemma_settled_fit(m, order@);
            let r = self@.cells;
            assert forall|j: int| 0 <= j < r.len() implies #[trigger] r[j].x + r[j].w <= cols by {
                assert(same_but_y(r[j], m[j]));
            }
            assert forall|j: int| 0 <= j < r.len() implies #[trigger] r[j].group == cs[j].group by {
                assert(same_but_y(r[j], m[j]));
                assert(m[j] == refit_cell(cs[j], cols as int));
            }
            lemma_groups_kept(r, cs);
            if heights_met(cs) {
                assert forall|j: int| 0 <= j < r.len() implies size_ok(#[trigger] r[j], cols as int) by {
                    assert(same_but_y(r[j], m[j]));
                    assert(m[j] == refit_cell(cs[j], cols as int));
                    lemma_refit_cell_mins(cs[j], cols as int);
                }
            }
        }
    }

    /// Close the active tab of group `id`; when that empties the group, drop its tile and let the
    /// rest settle upward under gravity.
    ///
    /// The bound on the summed tile heights is a conservative machine limit: it guarantees that no
    /// settled bottom edge can pass `u32::MAX`, which a settle never reaches below that sum.
    pub fn close_active(&mut self, id: GroupId)
        requires
            locate(old(self)@.cells, id) matches Some(i) && old(self)@.cells[i].group.active
                < old(self)@.cells[i].group.tabs.len(),
            spans_fit(old(self)@.cells),
            total_h(old(self)@.cells) <= u32::MAX,
        ensures
            ({
                let i = locate(old(self)@.cells, id).unwrap();
                let c = old(self)@.cells[i];
                let g = group_without(c.group, c.group.tabs[c.group.active]);
                if g.tabs.len() == 0 {
                    &&& final(self)@ == (GridView {
                        cells: reranked(gravity_spec(old(self)@.cells.remove(i), None)),
                        ..old(self)@
                    })
                    &&& packed(final(self)@.cells)
                    &&& edges_fit(final(self)@.cells)
                    &&& bounded(final(self)@.cells)
                } else {
                    &&& final(self)@ == (GridView {
                        cells: old(self)@.cells.update(i, CellView { group: g, ..c }),
                        ..old(self)@
                    })
                    &&& same_rects(final(self)@.cells, old(self)@.cells)
                }
            }),
            groups_wf(old(self)@.cells) ==> groups_wf(final(self)@.cells),
            final(self)@ == close_spec(old(self)@, id),
            forall|c: int| within_cols(old(self)@.cells, c) ==> #[trigger] within_cols(final(self)@.cells, c),
            distinct(old(self)@) ==> distinct(final(self)@),
            forall|c: int| mins_met(old(self)@.cells, c) ==> #[trigger] mins_met(final(self)@.cells, c),
    {
        let ghost cs = self@.cells;
        let idx = match self.locate(id) {
            Some(i) => i,
            None => {
                return;
            },
        };
        let _len = self.cells.len();
        proof {
            if distinct(old(self)@) {
                lemma_close_distinct(old(self)@, id);
            }
        }
        let active = self.cells[idx].group.active_panel().clone();
        let emptied = self.cells[idx].group.remove_tab(&active);
        proof {
            let c = cs[idx as int];
            let g = group_without(c.group, c.group.tabs[c.group.active]);
            assert(self@.cells =~= cs.update(idx as int, CellView { group: g, ..c }));
        }
        proof {
            let c = cs[idx as int];
            let g = group_without(c.group, c.group.tabs[c.group.active]);
            lemma_regroup_fits(cs, idx as int, g);
            if groups_wf(cs) && g.tabs.len() > 0 {
                assert(group_wf(cs[idx as int].group));
                lemma_group_without_wf(c.group, c.group.tabs[c.group.active]);
                lemma_groups_edit(cs, idx as int, CellView { group: g, ..c });
            }
        }
        if emptied {
            self.cells.remove(idx);
            let _n = self.cells.len();
            let ghost r = cs.remove(idx as int);
            proof {
                assert(self@.cells =~= r);
                lemma_total_h_remove(cs, idx as int);
                assert(spans_fit(r)) by {
                    assert forall|j: int| 0 <= j < r.len() implies #[trigger] r[j].x + r[j].w <= u32::MAX by {
                        if j < idx {
                            assert(r[j] == cs[j]);
                        } else {
                            assert(r[j] == cs[j + 1]);
                        }
                    }
                }
            }
            gravity(&mut self.cells, None);
            proof {
                lemma_gravity(r, None);
                lemma_reranked(gravity_spec(r, None));
                lemma_same_rects(reranked(gravity_spec(r, None)), gravity_spec(r, None));
                lemma_gravity_groups(r, None);
                if groups_wf(cs) {
                    assert(group_wf(cs[idx as int].group));
                    lemma_groups_edit(cs, idx as int, cs[idx as int]);
                }
                assert forall|c: int| within_cols(cs, c) implies #[trigger] within_cols(
                    reranked(gravity_spec(r, None)),
                    c,
                ) by {
                    assert(cs[idx as int].x + cs[idx as int].w <= c);
                    lemma_within_edit(cs, idx as int, cs[idx as int], c);
                    lemma_gravity_within(r, None, c);
                }
                assert forall|c: int| mins_met(cs, c) implies #[trigger] mins_met(reranked(gravity_spec(r, None)), c) by {
                    assert(size_ok(cs[idx as int], c));
                    lemma_mins_edit(cs, idx as int, cs[idx as int], c);
                    lemma_gravity_mins(r, None, c);
                }
            }
            self.reassign_ranks();
        } else {
            proof {
                assert forall|c: int| within_cols(cs, c) implies #[trigger] within_cols(self@.cells, c) by {
                    assert forall|j: int| 0 <= j < cs.len() implies (#[trigger] self@.cells[j]).x == cs[j].x
                        && self@.cells[j].w == cs[j].w by {
                        if j != idx {
                            assert(self@.cells[j] == cs[j]);
                        }
                    }
                    lemma_within_kept(self@.cells, cs, c);
                }
                assert forall|c: int| mins_met(cs, c) implies #[trigger] mins_met(self@.cells, c) by {
                    assert forall|j: int| 0 <= j < cs.len() implies (#[trigger] self@.cells[j]).w == cs[j].w
                        && self@.cells[j].h == cs[j].h && self@.cells[j].min_w == cs[j].min_w && self@.cells[j].min_h
                        == cs[j].min_h by {
                        if j != idx {
                            assert(self@.cells[j] == cs[j]);
                        }
                    }
                    lemma_mins_kept(self@.cells, cs, c);
                }
            }
        }
    }

    /// Open `panel` as a new last tab in group `id` and activate it.
    pub fn add_tab(&mut self, id: GroupId, panel: PanelId)
        requires
            locate(old(self)@.cells, id) is Some,
        ensures
            ({
                let i = locate(old(self)@.cells, id).unwrap();
                let c = old(self)@.cells[i];
                final(self)@ == (GridView {
                    cells: old(self)@.cells.update(
                        i,
                        CellView {
                            group: GroupView {
                                id: c.group.id,
                                tabs: c.group.tabs.push(panel@),
                                active: c.group.tabs.len() as int,
                            },
                            ..c
                        },
                    ),
                    ..old(self)@
                })
            }),
            same_rects(final(self)@.cells, old(self)@.cells),
            groups_wf(old(self)@.cells) ==> groups_wf(final(self)@.cells),
            final(self)@ == add_tab_spec(old(self)@, id, panel@),
            distinct(old(self)@) && fresh_panel(old(self)@.cells, panel@) ==> distinct(final(self)@),
            forall|c: int| mins_met(old(self)@.cells, c) ==> #[trigger] mins_met(final(self)@.cells, c),
    {
        let ghost cs = self@.cells;
        let ghost p = panel@;
        proof {
            if distinct(old(self)@) && fresh_panel(old(self)@.cells, panel@) {
                lemma_add_tab_distinct(old(self)@, id, panel@);
            }
        }
        let idx = match self.locate(id) {
            Some(i) => i,
            None => {
                return;
            },
        };
        let at = self.cells[idx].group.tabs.len();
        self.cells[idx].group.insert_tab(panel, at);
        proof {
            let c = cs[idx as int];
            assert(c.group.tabs.insert(at as int, p) =~= c.group.tabs.push(p));
            assert(self@.cells =~= cs.update(
                idx as int,
                CellView {
                    group: GroupView { id: c.group.id, tabs: c.group.tabs.push(p), active: c.group.tabs.len() as int },
                    ..c
                },
            ));
            let ng = GroupView { id: c.group.id, tabs: c.group.tabs.push(p), active: c.group.tabs.len() as int };
            lemma_regroup_fits(cs, idx as int, ng);
            if groups_wf(cs) {
                lemma_groups_edit(cs, idx as int, CellView { group: ng, ..c });
            }
            assert forall|k: int| mins_met(cs, k) implies #[trigger] mins_met(self@.cells, k) by {
                assert forall|j: int| 0 <= j < cs.len() implies (#[trigger] self@.cells[j]).w == cs[j].w
                    && self@.cells[j].h == cs[j].h && self@.cells[j].min_w == cs[j].min_w && self@.cells[j].min_h
                    == cs[j].min_h by {
                    if j != idx {
                        assert(self@.cells[j] == cs[j]);
                    }
                }
                lemma_mins_kept(self@.cells, cs, k);
            }
        }
    }

    /// The first pair of overlapping tiles (by index), or `None` for a clean packing.
    pub fn overlaps(&self) -> (r: Option<(usize, usize)>)
        requires
            edges_fit(self@.cells),
        ensures
            r is None <==> no_overlap(self@.cells),
            r matches Some((i, j)) ==> {
                &&& i < j < self@.cells.len()
                &&& rects_meet(self@.cells[i as int], self@.cells[j as int])
                &&& forall|a: int, b: int|
                    0 <= a < b < self@.cells.len() && (a < i || (a == i && b < j)) ==> !rects_meet(
                        #[trigger] self@.cells[a],
                        #[trigger] self@.cells[b],
                    )
            },
    {
        let ghost cs = self@.cells;
        let n = self.cells.len();
        let mut i: usize = 0;
        while i < n
            invariant
                i <= n,
                n == cs.len(),
                cs == self@.cells,
                edges_fit(cs),
                forall|a: int, b: int| 0 <= a < b < n && a < i ==> !rects_meet(#[trigger] cs[a], #[trigger] cs[b]),
            decreases n - i,
        {
            let mut j: usize = i + 1;
            while j < n
                invariant
                    i < n,
                    i + 1 <= j <= n,
                    n == cs.len(),
                    cs == self@.cells,
                    edges_fit(cs),
                    forall|a: int, b: int| 0 <= a < b < n && a < i ==> !rects_meet(#[trigger] cs[a], #[trigger] cs[b]),
                    forall|b: int| i < b < j ==> !rects_meet(cs[i as int], #[trigger] cs[b]),
                decreases n - j,
            {
                let a = &self.cells[i];
                let b = &self.cells[j];
                proof {
                    assert(cs[i as int].x + cs[i as int].w <= u32::MAX);
                    assert(cs[j as int].x + cs[j as int].w <= u32::MAX);
                }
                if a.x < b.x + b.w && b.x < a.x + a.w && a.y < b.y + b.h && b.y < a.y + a.h {
                    return Some((i, j));
                }
                j += 1;
            }
            i += 1;
        }
        None
    }

    /// The first tile (by index) that floats: off the top, yet resting on no tile.
    pub fn unsupported(&self) -> (r: Option<usize>)
        requires
            edges_fit(self@.cells),
        ensures
            r is None <==> supported(self@.cells),
            r matches Some(i) ==> {
                &&& i < self@.cells.len()
                &&& self@.cells[i as int].y > 0
                &&& forall|j: int| !rests_on(self@.cells, i as int, j)
                &&& forall|a: int|
                    0 <= a < i && #[trigger] self@.cells[a].y > 0 ==> exists|j: int| rests_on(self@.cells, a, j)
            },
    {
        let ghost cs = self@.cells;
        let n = self.cells.len();
        let mut i: usize = 0;
        while i < n
            invariant
                i <= n,
                n == cs.len(),
                cs == self@.cells,
                edges_fit(cs),
                forall|a: int| 0 <= a < i && #[trigger] cs[a].y > 0 ==> exists|j: int| rests_on(cs, a, j),
            decreases n - i,
        {
            if self.cells[i].y > 0 {
                let mut found = false;
                let mut j: usize = 0;
                while j < n
                    invariant
                        i < n,
                        j <= n,
                        n == cs.len(),
                        cs == self@.cells,
                        edges_fit(cs),
                        found ==> exists|q: int| rests_on(cs, i as int, q),
                        !found ==> forall|q: int| 0 <= q < j ==> !rests_on(cs, i as int, q),
                    decreases n - j,
                {
                    let c = &self.cells[i];
                    let o = &self.cells[j];
                    proof {
                        assert(cs[i as int].x + cs[i as int].w <= u32::MAX);
                        assert(cs[j as int].x + cs[j as int].w <= u32::MAX);
                    }
                    if !found && j != i && o.x < c.x + c.w && c.x < o.x + o.w && o.y + o.h == c.y {
                        found = true;
                        proof {
                            assert(rests_on(cs, i as int, j as int));
                        }
                    }
                    j += 1;
                }
                if !found {
                    proof {
                        assert(cs[i as int].y > 0);
                        assert forall|q: int| !rests_on(cs, i as int, q) by {}
                    }
                    return Some(i);
                }
            }
            i += 1;
        }
        None
    }

    /// The invariant a settled grid holds: at rest, no two tiles overlap, no tile floats.
    pub fn assert_packed(&self)
        requires
            self.state == GridState::Settled,
            edges_fit(self@.cells),
            packed(self@.cells),
    {
        let o = self.overlaps();
        let u = self.unsupported();
        proof {
            assert(o is None && u is None);
        }
    }

    /// The single writer for moves. Detach `source` (a whole tile leaves the grid; a torn tab
    /// leaves its origin, pruned if emptied, as a fresh single-tab group inheriting the origin's
    /// size and minimum), then re-home it per `target`: join a group's strip, drop at a row that
    /// shoves the stack below down, or pack onto the skyline at a column; the grid then settles.
    /// Dropping onto the source's own group does nothing, except tearing one tab back into its own
    /// multi-tab group, which reorders it.
    #[verifier::rlimit(60)]
    #[verifier::spinoff_prover]
    pub fn drop(&mut self, source: DragSource, target: DropTarget, cols: u32)
        requires
            drop_ok(old(self)@, source@, target) || self_drop(source@, target),
        ensures
            final(self)@ == drop_spec(old(self)@, source@, target, cols),
            !drop_is_noop(old(self)@, source@, target) ==> packed(final(self)@.cells) && edges_fit(
                final(self)@.cells,
            ) && bounded(final(self)@.cells),
            groups_wf(old(self)@.cells) ==> groups_wf(final(self)@.cells),
            within_cols(old(self)@.cells, cols as int) ==> within_cols(final(self)@.cells, cols as int),
            distinct(old(self)@) && source_listed(old(self)@, source@) ==> distinct(final(self)@),
            mins_met(old(self)@.cells, cols as int) ==> mins_met(final(self)@.cells, cols as int),
            source_listed(old(self)@, source@) ==> forall|p: Seq<char>| #[trigger] occ_all(final(self)@.cells, p)
                == occ_all(old(self)@.cells, p),
            ids_unique(old(self)@.cells) && ids_below(old(self)@.cells, old(self)@.next_group_id) ==> ids_unique(
                final(self)@.cells,
            ) && ids_below(final(self)@.cells, final(self)@.next_group_id),
            packed(old(self)@.cells) ==> packed(final(self)@.cells),
    {
        let ghost g0 = self@;
        let ghost src = source@;
        proof {
            if drop_ok(g0, src, target) {
                lemma_detach(g0, src, target);
            }
            lemma_locate_from(g0.cells, source_group(src), 0);
        }
        let sidx = match self.locate(source.group()) {
            Some(i) => i,
            None => {
                return;
            },
        };
        if let DropTarget::Tab { group, .. } = target {
            if group == source.group() {
                let reorder = match &source {
                    DragSource::Tab { .. } => self.cells[sidx].group.tabs.len() > 1,
                    DragSource::Tile(_) => false,
                };
                if !reorder {
                    return;
                }
            }
        }
        proof {
            assert(drop_ok(g0, src, target));
            lemma_detach(g0, src, target);
        }
        let ghost d = detach(g0, src);
        let (group, w, h, min_w, min_h) = match source {
            DragSource::Tile(_) => {
                let c = self.cells.remove(sidx);
                (c.group, c.w, c.h, c.min_w, c.min_h)
            },
            DragSource::Tab { panel, .. } => {
                let w = self.cells[sidx].w;
                let h = self.cells[sidx].h;
                let mw = self.cells[sidx].min_w;
                let mh = self.cells[sidx].min_h;
                let ghost before = self@.cells;
                if self.cells[sidx].group.remove_tab(&panel) {
                    proof {
                        assert(self@.cells =~= before.update(sidx as int, CellView { group: group_without(before[sidx as int].group, panel@), ..before[sidx as int] }));
                    }
                    self.cells.remove(sidx);
                } else {
                    proof {
                        assert(self@.cells =~= before.update(sidx as int, CellView { group: group_without(before[sidx as int].group, panel@), ..before[sidx as int] }));
                    }
                }
                let id = self.mint_group_id();
                (Group::new(id, panel), w, h, mw, mh)
            },
        };
        proof {
            assert(self@.cells =~= d.cells);
            assert(group@ == d.group);
        }
        let _n = self.cells.len();
        let room = cols.saturating_sub(w);
        match target {
            DropTarget::Tab { group: t, index } => {
                let k = match self.locate(t) {
                    Some(k) => k,
                    None => {
                        return;
                    },
                };
                let ghost dst = d.cells[k as int];
                let len = self.cells[k].group.tabs.len();
                let at0 = if index <= len {
                    index
                } else {
                    len
                };
                let mut at = at0;
                let n_m = group.tabs.len();
                let mut q: usize = 0;
                let ghost moved = group@.tabs;
                proof {
                    assert(dst.group.tabs.take(at0 as int) + moved.take(0) + dst.group.tabs.skip(at0 as int)
                        =~= dst.group.tabs);
                    assert(self@.cells =~= d.cells.update(
                        k as int,
                        CellView {
                            group: GroupView {
                                id: dst.group.id,
                                tabs: dst.group.tabs.take(at0 as int) + moved.take(0) + dst.group.tabs.skip(at0 as int),
                                active: dst.group.active,
                            },
                            ..dst
                        },
                    ));
                }
                while q < n_m
                    invariant
                        q <= n_m,
                        moved.len() == n_m,
                        k < d.cells.len(),
                        n_m == group.tabs@.len(),
                        moved == group@.tabs,
                        k < self.cells@.len(),
                        at == at0 + q,
                        at0 <= dst.group.tabs.len(),
                        dst == d.cells[k as int],
                        self@.next_group_id == d.next_group_id,
                        self@.state == g0.state,
                        self@.cells == d.cells.update(
                            k as int,
                            CellView {
                                group: GroupView {
                                    id: dst.group.id,
                                    tabs: dst.group.tabs.take(at0 as int) + moved.take(q as int) + dst.group.tabs.skip(at0 as int),
                                    active: if q > 0 {
                                        at - 1
                                    } else {
                                        dst.group.active
                                    },
                                },
                                ..dst
                            },
                        ),
                    decreases n_m - q,
                {
                    let p = group.tabs[q].clone();
                    let ghost pv = p@;
                    proof {
                        assert(pv == moved[q as int]);
                    }
                    let ghost before = self@.cells;
                    let ghost raw_before = self.cells@;
                    let ghost tabs_before = before[k as int].group.tabs;
                    proof {
                        assert(tabs_before.len() == dst.group.tabs.len() + q);
                    }
                    self.cells[k].group.insert_tab(p, at);
                    let _l = self.cells[k].group.tabs.len();
                    proof {
                        assert(self@.cells[k as int].group == GroupView {
                            id: dst.group.id,
                            tabs: tabs_before.insert(at as int, pv),
                            active: at as int,
                        });
                        assert(self@.cells[k as int] == CellView { group: self@.cells[k as int].group, ..before[k as int] });
                        assert(forall|j: int| 0 <= j < before.len() && j != k ==> self@.cells[j] == before[j]);
                        assert(tabs_before.insert(at as int, moved[q as int]) =~= dst.group.tabs.take(at0 as int)
                            + moved.take(q as int + 1) + dst.group.tabs.skip(at0 as int));
                    }
                    proof {
                        let ng = GroupView {
                            id: dst.group.id,
                            tabs: dst.group.tabs.take(at0 as int) + moved.take(q as int + 1) + dst.group.tabs.skip(at0 as int),
                            active: at as int,
                        };
                        assert(self@.cells[k as int] == CellView { group: ng, ..dst });
                        assert forall|j: int| 0 <= j < d.cells.len() && j != k implies self@.cells[j] == d.cells[j] by {
                            assert(before[j] == d.cells[j]);
                        }
                        assert(raw_before.len() == before.len());
                        assert(self.cells@.len() == raw_before.len());
                        assert(self@.cells.len() == d.cells.len());
                        assert(self@.cells =~= d.cells.update(k as int, CellView { group: ng, ..dst }));
                    }
                    at += 1;
                    q += 1;
                }
                let ghost r = d.cells.update(k as int, CellView { group: insert_tabs(dst.group, moved, at0 as int), ..dst });
                proof {
                    assert(moved.take(n_m as int) =~= moved);
                    assert(self@.cells =~= r);
                    lemma_regroup_fits(d.cells, k as int, insert_tabs(dst.group, moved, at0 as int));
                }
                gravity(&mut self.cells, None);
                proof {
                    lemma_gravity(r, None);
                    lemma_reranked(gravity_spec(r, None));
                    lemma_same_rects(reranked(gravity_spec(r, None)), gravity_spec(r, None));
                    if groups_wf(g0.cells) {
                        lemma_drop_groups(g0, src, target, cols);
                    }
                    if distinct(g0) && source_listed(g0, src) {
                        lemma_drop_distinct(g0, src, target, cols);
                    }
                    if source_listed(g0, src) {
                        law_drop_keeps_panels(g0, src, target, cols);
                    }
                    if ids_unique(g0.cells) && ids_below(g0.cells, g0.next_group_id) {
                        lemma_drop_ids(g0, src, target, cols);
                    }
                    if within_cols(g0.cells, cols as int) {
                        lemma_drop_within(g0, src, target, cols);
                    }
                    if mins_met(g0.cells, cols as int) {
                        lemma_drop_mins(g0, src, target, cols);
                    }
                }
            },
            DropTarget::Displace { x, y } => {
                let cx = if x <= room {
                    x
                } else {
                    room
                };
                let ghost c = landed(d, cx, y);
                self.cells.push(
                    Cell { group, x: cx, y, w, h, min_w, min_h, desired_w: None, desired_x: None, rank: 0 },
                );
                let pin = self.cells.len() - 1;
                let ghost r = d.cells.push(c);
                proof {
                    assert(self@.cells =~= r);
                    lemma_total_h_push(d.cells, c);
                    assert forall|j: int| 0 <= j < r.len() implies #[trigger] r[j].x + r[j].w <= u32::MAX by {
                        if j < d.cells.len() {
                            assert(r[j] == d.cells[j]);
                        }
                    }
                }
                gravity(&mut self.cells, Some(pin));
                proof {
                    lemma_gravity(r, Some(pin));
                    lemma_reranked(gravity_spec(r, Some(pin)));
                    lemma_same_rects(reranked(gravity_spec(r, Some(pin))), gravity_spec(r, Some(pin)));
                    if groups_wf(g0.cells) {
                        lemma_drop_groups(g0, src, target, cols);
                    }
                    if distinct(g0) && source_listed(g0, src) {
                        lemma_drop_distinct(g0, src, target, cols);
                    }
                    if source_listed(g0, src) {
                        law_drop_keeps_panels(g0, src, target, cols);
                    }
                    if ids_unique(g0.cells) && ids_below(g0.cells, g0.next_group_id) {
                        lemma_drop_ids(g0, src, target, cols);
                    }
                    if within_cols(g0.cells, cols as int) {
                        lemma_drop_within(g0, src, target, cols);
                    }
                    if mins_met(g0.cells, cols as int) {
                        lemma_drop_mins(g0, src, target, cols);
                    }
                }
            },
            DropTarget::Pack { x } => {
                let cx = if x <= room {
                    x
                } else {
                    room
                };
                let y = skyline(self.cells.as_slice(), cx, w);
                let ghost c = landed(d, cx, y);
                self.cells.push(
                    Cell { group, x: cx, y, w, h, min_w, min_h, desired_w: None, desired_x: None, rank: 0 },
                );
                let _m = self.cells.len();
                let ghost r = d.cells.push(c);
                proof {
                    assert(self@.cells =~= r);
                    lemma_total_h_push(d.cells, c);
                    assert forall|j: int| 0 <= j < r.len() implies #[trigger] r[j].x + r[j].w <= u32::MAX by {
                        if j < d.cells.len() {
                            assert(r[j] == d.cells[j]);
                        }
                    }
                }
                gravity(&mut self.cells, None);
                proof {
                    lemma_gravity(r, None);
                    lemma_reranked(gravity_spec(r, None));
                    lemma_same_rects(reranked(gravity_spec(r, None)), gravity_spec(r, None));
                    if groups_wf(g0.cells) {
                        lemma_drop_groups(g0, src, target, cols);
                    }
                    if distinct(g0) && source_listed(g0, src) {
                        lemma_drop_distinct(g0, src, target, cols);
                    }
                    if source_listed(g0, src) {
                        law_drop_keeps_panels(g0, src, target, cols);
                    }
                    if ids_unique(g0.cells) && ids_below(g0.cells, g0.next_group_id) {
                        lemma_drop_ids(g0, src, target, cols);
                    }
                    if within_cols(g0.cells, cols as int) {
                        lemma_drop_within(g0, src, target, cols);
                    }
                    if mins_met(g0.cells, cols as int) {
                        lemma_drop_mins(g0, src, target, cols);
                    }
                }
            },
        }
        self.reassign_ranks();
    }

    /// Which [`DropTarget`] a pointer resolves to. `col`/`row` are the dragged block's snapped
    /// landing column and row, `hit` the first tile under the pointer (and whether the pointer is
    /// in its header band). A hovered header joins that group (a tile or lone tab pointed at its own
    /// header moves instead); a hovered body displaces at the row below that tile; open space
    /// displaces at the pointer's row when tiles sit at or below it in those columns, else packs.
    /// The column is clamped so the block does not spill past `cols`.
    pub fn resolve_target(
        &self,
        source: &DragSource,
        col: u32,
        row: u32,
        hit: Option<(usize, bool)>,
        cols: u32,
        src_w: u32,
    ) -> (t: DropTarget)
        requires
            hit matches Some((i, _)) ==> i < self.cells@.len(),
            edges_fit(self@.cells),
        ensures
            t == target_spec(self@.cells, source@, col, row, hit, cols, src_w),
    {
        let ghost cs = self@.cells;
        let room = cols.saturating_sub(src_w);
        let x = if col <= room {
            col
        } else {
            room
        };
        match hit {
            Some((i, header)) => {
                proof {
                    assert(cs[i as int].y + cs[i as int].h <= u32::MAX);
                }
                let gid = self.cells[i].group.id;
                let mut self_no_join = false;
                if gid == source.group() {
                    proof {
                        lemma_locate_some(cs, gid, i as int);
                    }
                    let joins = match source {
                        DragSource::Tab { from, .. } => match self.locate(*from) {
                            Some(k) => self.cells[k].group.tabs.len() > 1,
                            None => false,
                        },
                        DragSource::Tile(_) => false,
                    };
                    self_no_join = !joins;
                }
                if header && !self_no_join {
                    DropTarget::Tab { group: gid, index: self.cells[i].group.tabs.len() }
                } else {
                    DropTarget::Displace { x, y: self.cells[i].y + self.cells[i].h }
                }
            },
            None => {
                if row < skyline(self.cells.as_slice(), x, src_w) {
                    DropTarget::Displace { x, y: row }
                } else {
                    DropTarget::Pack { x }
                }
            },
        }
    }

    /// Sum of all tile heights, saturating at `u64::MAX`.
    pub fn total_height(&self) -> (t: u64)
        ensures
            t == min_int(total_h(self@.cells), u64::MAX as int),
    {
        let ghost cs = self@.cells;
        let mut t: u64 = 0;
        let mut i: usize = 0;
        while i < self.cells.len()
            invariant
                i <= cs.len(),
                cs == self@.cells,
                t == min_int(total_h(cs.take(i as int)), u64::MAX as int),
            decreases cs.len() - i,
        {
            proof {
                assert(cs.take(i as int + 1).drop_last() =~= cs.take(i as int));
                assert(cs.take(i as int + 1).last() == cs[i as int]);
                lemma_total_h_nonneg(cs.take(i as int));
            }
            t = t.saturating_add(self.cells[i].h as u64);
            i += 1;
        }
        proof {
            assert(cs.take(cs.len() as int) =~= cs);
        }
        t
    }

    /// Whether every tile's right and bottom edges fit in `u32`.
    pub fn fits_edges(&self) -> (r: bool)
        ensures
            r == edges_fit(self@.cells),
    {
        let ghost cs = self@.cells;
        let mut i: usize = 0;
        while i < self.cells.len()
            invariant
                i <= cs.len(),
                cs == self@.cells,
                forall|j: int| #![trigger cs[j]] 0 <= j < i ==> cs[j].x + cs[j].w <= u32::MAX && cs[j].y + cs[j].h
                    <= u32::MAX,
            decreases cs.len() - i,
        {
            let c = &self.cells[i];
            if c.x as u64 + c.w as u64 > u32::MAX as u64 || c.y as u64 + c.h as u64 > u32::MAX as u64 {
                proof {
                    assert(cs[i as int] == self.cells@[i as int]@);
                }
                return false;
            }
            i += 1;
        }
        true
    }

    /// Whether [`drop`](Self::drop) may run: the source and any target group exist, a torn tab can
    /// mint an id, and the tiles with a torn copy fit.
    pub fn can_drop(&self, source: &DragSource, target: &DropTarget) -> (r: bool)
        ensures
            r == (drop_ok(self@, source@, *target) || self_drop(source@, *target)),
    {
        if let (DragSource::Tile(g), DropTarget::Tab { group, .. }) = (source, target) {
            if *group == *g {
                return true;
            }
        }
        let ghost cs = self@.cells;
        let i = match self.locate(source.group()) {
            Some(i) => i,
            None => {
                return false;
            },
        };
        if let DropTarget::Tab { group, .. } = target {
            if self.locate(*group).is_none() {
                return false;
            }
        }
        if let DragSource::Tab { .. } = source {
            if self.next_group_id == u64::MAX {
                return false;
            }
        }
        if !self.fits_edges() {
            return false;
        }
        let t = self.total_height();
        t <= u32::MAX as u64 && t + self.cells[i].h as u64 <= u32::MAX as u64
    }

    /// Whether [`resize`](Self::resize) may run with these arguments: `idx` names a tile and the
    /// resized grid's spans and total height fit.
    pub fn can_resize(&self, idx: usize, new_w: u32, new_h: u32, cols: u32) -> (r: bool)
        requires
            edges_fit(self@.cells),
        ensures
            r == (idx < self@.cells.len() && spans_fit(
                self@.cells.update(idx as int, resized_cell(self@.cells[idx as int], new_w, new_h, cols)),
            ) && total_h(self@.cells.update(idx as int, resized_cell(self@.cells[idx as int], new_w, new_h, cols)))
                <= u32::MAX),
    {
        let ghost cs = self@.cells;
        if idx >= self.cells.len() {
            return false;
        }
        let ghost rc = resized_cell(cs[idx as int], new_w, new_h, cols);
        let ghost u = cs.update(idx as int, rc);
        let c = &self.cells[idx];
        let sub = cols.saturating_sub(c.x);
        let span = if sub >= 1 {
            sub
        } else {
            1
        };
        let grown = if new_w >= c.min_w {
            new_w
        } else {
            c.min_w
        };
        let w = if grown <= span {
            grown
        } else {
            span
        };
        let h = if new_h >= c.min_h {
            new_h
        } else {
            c.min_h
        };
        proof {
            lemma_total_h_update(cs, idx as int, rc);
            lemma_total_h_update(cs, idx as int, CellView { h: 0, ..cs[idx as int] });
            lemma_total_h_nonneg(cs.update(idx as int, CellView { h: 0, ..cs[idx as int] }));
            assert forall|j: int| 0 <= j < u.len() && j != idx implies #[trigger] u[j].x + u[j].w <= u32::MAX by {
                assert(u[j] == cs[j]);
            }
        }
        proof {
            assert(u[idx as int] == rc);
            assert(rc.w == w && rc.x == c.x && rc.h == h);
        }
        if c.x as u64 + w as u64 > u32::MAX as u64 {
            return false;
        }
        let t = self.total_height();
        t as u128 - c.h as u128 + h as u128 <= u32::MAX as u128
    }

    /// Whether every tile's group hosts a tab and has its active index in range.
    pub fn groups_ok(&self) -> (r: bool)
        ensures
            r == groups_wf(self@.cells),
    {
        let ghost cs = self@.cells;
        let mut i: usize = 0;
        while i < self.cells.len()
            invariant
                i <= cs.len(),
                cs == self@.cells,
                forall|j: int| #![trigger cs[j]] 0 <= j < i ==> group_wf(cs[j].group),
            decreases cs.len() - i,
        {
            let g = &self.cells[i].group;
            if g.tabs.len() == 0 || g.active >= g.tabs.len() {
                proof {
                    assert(cs[i as int].group == g@);
                    assert(!group_wf(cs[i as int].group));
                }
                return false;
            }
            i += 1;
        }
        true
    }

    /// Whether [`close_active`](Self::close_active) may run: group `id` exists and its active index
    /// is in range.
    pub fn can_close(&self, id: GroupId) -> (r: bool)
        ensures
            r == (locate(self@.cells, id) matches Some(i) && self@.cells[i].group.active
                < self@.cells[i].group.tabs.len()),
    {
        match self.locate(id) {
            Some(i) => self.cells[i].group.active < self.cells[i].group.tabs.len(),
            None => false,
        }
    }

    /// Whether two grids are the same layout: equal tiles in the same order, same gesture state
    /// and same next group id.
    pub fn same(&self, other: &PackedGrid) -> (r: bool)
        ensures
            r == (self@ == other@),
    {
        if self.state != other.state || self.next_group_id != other.next_group_id || self.cells.len()
            != other.cells.len() {
            proof {
                if self.cells.len() != other.cells.len() {
                    assert(self@.cells.len() != other@.cells.len());
                }
            }
            return false;
        }
        let mut i: usize = 0;
        while i < self.cells.len()
            invariant
                i <= self.cells.len(),
                self.cells.len() == other.cells.len(),
                forall|j: int| 0 <= j < i ==> self@.cells[j] == other@.cells[j],
            decreases self.cells.len() - i,
        {
            if !self.cells[i].same(&other.cells[i]) {
                proof {
                    assert(self@.cells[i as int] != other@.cells[i as int]);
                }
                return false;
            }
            i += 1;
        }
        proof {
            assert(self@.cells =~= other@.cells);
        }
        true
    }
}

impl Cell {
    /// Whether two tiles are the same: every field equal.
    pub fn same(&self, other: &Cell) -> (r: bool)
        ensures
            r == (self@ == other@),
    {
        self.group.same(&other.group) && self.x == other.x && self.y == other.y && self.w == other.w
            && self.h == other.h && self.min_w == other.min_w && self.min_h == other.min_h && self.desired_w
            == other.desired_w && self.desired_x == other.desired_x && self.rank == other.rank
    }
}

impl PartialEq for Cell {
    fn eq(&self, other: &Self) -> (r: bool) {
        self.same(other)
    }
}

impl vstd::std_specs::cmp::PartialEqSpecImpl for Cell {
    open spec fn obeys_eq_spec() -> bool {
        true
    }

    open spec fn eq_spec(&self, other: &Self) -> bool {
        self@ == other@
    }
}

impl PartialEq for PackedGrid {
    fn eq(&self, other: &Self) -> (r: bool) {
        self.same(other)
    }
}

impl vstd::std_specs::cmp::PartialEqSpecImpl for PackedGrid {
    open spec fn obeys_eq_spec() -> bool {
        true
    }

    open spec fn eq_spec(&self, other: &Self) -> bool {
        self@ == other@
    }
}

impl Clone for PackedGrid {
    fn clone(&self) -> (r: Self)
        ensures
            r@ == self@,
    {
        let mut cells: Vec<Cell> = Vec::new();
        let mut i: usize = 0;
        while i < self.cells.len()
            invariant
                i <= self.cells.len(),
                cells@.len() == i,
                forall|j: int| 0 <= j < i ==> cells@[j]@ == self.cells@[j]@,
            decreases self.cells.len() - i,
        {
            cells.push(self.cells[i].clone());
            i += 1;
        }
        let r = PackedGrid { cells, state: self.state, next_group_id: self.next_group_id };
        proof {
            assert(r@.cells =~= self@.cells);
        }
        r
    }
}

} // verus!
