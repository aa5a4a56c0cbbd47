//! Tiles honour their minimum sizes: each is at least its minimum height, and at least its
//! minimum width, or as wide as the view when the view is narrower than that minimum.

use vstd::prelude::*;

use crate::model::group::{group_without, GroupView};
use crate::model::layout::{lemma_total_h_update, rest_height, same_but_y, total_h};
use crate::model::packed::{
    clamp_x, detach, drop_cells, drop_is_noop, drop_ok, gravity_spec, insert_tabs, landed, lemma_detach, lemma_gravity,
    lemma_locate_from, lemma_reranked, lemma_total_h_push, locate, min_int, placed_cell, refit_cell, reranked,
    resized_cell, source_group, CellView, DragSourceView, DropTarget, GridView,
};

verus! {

/// Tile `c` honours its minimum height, and its minimum width as far as a `cols`-wide view allows.
pub open spec fn size_ok(c: CellView, cols: int) -> bool {
    c.h >= c.min_h && c.w >= min_int(c.min_w as int, cols)
}

/// Every tile honours its minimums in a `cols`-wide view.
pub open spec fn mins_met(cs: Seq<CellView>, cols: int) -> bool {
    forall|i: int| 0 <= i < cs.len() ==> size_ok(#[trigger] cs[i], cols)
}

/// Every tile is at least its minimum height.
pub open spec fn heights_met(cs: Seq<CellView>) -> bool {
    forall|i: int| 0 <= i < cs.len() ==> (#[trigger] cs[i]).h >= cs[i].min_h
}

/// Grids whose tiles agree on their sizes and minimums, index by index, agree on honouring them.
pub proof fn lemma_mins_kept(a: Seq<CellView>, b: Seq<CellView>, cols: int)
    requires
        a.len() == b.len(),
        forall|i: int|
            0 <= i < a.len() ==> (#[trigger] a[i]).w == b[i].w && a[i].h == b[i].h && a[i].min_w == b[i].min_w
                && a[i].min_h == b[i].min_h,
    ensures
        mins_met(a, cols) == mins_met(b, cols),
{
    if mins_met(a, cols) {
        assert forall|i: int| 0 <= i < b.len() implies size_ok(#[trigger] b[i], cols) by {
            assert(size_ok(a[i], cols));
        }
    }
    if mins_met(b, cols) {
        assert forall|i: int| 0 <= i < a.len() implies size_ok(#[trigger] a[i], cols) by {
            assert(size_ok(b[i], cols));
        }
    }
}

/// Taking a tile out, replacing one by a tile that honours its minimums, or adding one keeps
/// every tile honouring them.
pub proof fn lemma_mins_edit(cs: Seq<CellView>, i: int, c: CellView, cols: int)
    requires
        mins_met(cs, cols),
        size_ok(c, cols),
    ensures
        0 <= i < cs.len() ==> mins_met(cs.remove(i), cols),
        0 <= i < cs.len() ==> mins_met(cs.update(i, c), cols),
        mins_met(cs.push(c), cols),
{
    if 0 <= i < cs.len() {
        let r = cs.remove(i);
        assert forall|j: int| 0 <= j < r.len() implies size_ok(#[trigger] r[j], cols) by {
            if j < i {
                assert(r[j] == cs[j]);
            } else {
                assert(r[j] == cs[j + 1]);
            }
        }
        let u = cs.update(i, c);
        assert forall|j: int| 0 <= j < u.len() implies size_ok(#[trigger] u[j], cols) by {
            if j != i {
                assert(u[j] == cs[j]);
            }
        }
    }
    let p = cs.push(c);
    assert forall|j: int| 0 <= j < p.len() implies size_ok(#[trigger] p[j], cols) by {
        if j < cs.len() {
            assert(p[j] == cs[j]);
        }
    }
}

/// Ranking afresh keeps every tile's size.
pub proof fn lemma_reranked_mins(cs: Seq<CellView>, cols: int)
    requires
        cs.len() <= usize::MAX,
    ensures
        mins_met(reranked(cs), cols) == mins_met(cs, cols),
{
    lemma_reranked(cs);
    let r = reranked(cs);
    assert forall|i: int| 0 <= i < r.len() implies (#[trigger] r[i]).w == cs[i].w && r[i].h == cs[i].h && r[i].min_w
        == cs[i].min_w && r[i].min_h == cs[i].min_h by {
        assert(r[i] == CellView { rank: r[i].rank, ..cs[i] });
    }
    lemma_mins_kept(r, cs, cols);
}

/// Settling under gravity and ranking afresh keep every tile's size.
pub proof fn lemma_gravity_mins(cs: Seq<CellView>, pin: Option<usize>, cols: int)
    requires
        cs.len() <= usize::MAX,
        total_h(cs) <= u32::MAX,
    ensures
        mins_met(reranked(gravity_spec(cs, pin)), cols) == mins_met(cs, cols),
{
    lemma_gravity(cs, pin);
    let g = gravity_spec(cs, pin);
    lemma_reranked_mins(g, cols);
    assert forall|i: int| 0 <= i < g.len() implies (#[trigger] g[i]).w == cs[i].w && g[i].h == cs[i].h && g[i].min_w
        == cs[i].min_w && g[i].min_h == cs[i].min_h by {
        assert(same_but_y(g[i], cs[i]));
    }
    lemma_mins_kept(g, cs, cols);
}

/// The tile `place` seats honours its minimums.
pub proof fn lemma_placed_mins(cs: Seq<CellView>, g: GroupView, w: u32, h: u32, min: (u32, u32), cols: u32)
    ensures
        size_ok(placed_cell(cs, g, w, h, min, cols), cols as int),
{
}

/// A resized tile honours its minimums when it did and lay within the view: its width is clamped
/// to the span right of its left edge, which such a tile's minimum never exceeds.
pub proof fn lemma_resized_mins(c: CellView, new_w: u32, new_h: u32, cols: u32)
    requires
        size_ok(c, cols as int),
        c.x + c.w <= cols,
    ensures
        size_ok(resized_cell(c, new_w, new_h, cols), cols as int),
{
}

/// A reflowed tile honours its minimums in the view it was reflowed into, when it was at least
/// its minimum height.
pub proof fn lemma_refit_cell_mins(c: CellView, cols: int)
    requires
        c.h >= c.min_h,
        cols >= 1,
    ensures
        size_ok(refit_cell(c, cols), cols),
{
}

/// A drop keeps every tile honouring its minimums.
pub proof fn lemma_drop_mins(g: GridView, src: DragSourceView, t: DropTarget, cols: u32)
    requires
        drop_ok(g, src, t),
        !drop_is_noop(g, src, t),
        mins_met(g.cells, cols as int),
        t is Tab ==> detach(g, src).cells.len() <= usize::MAX,
        !(t is Tab) ==> detach(g, src).cells.len() + 1 <= usize::MAX,
    ensures
        mins_met(drop_cells(g, src, t, cols), cols as int),
{
    lemma_detach(g, src, t);
    let cs = g.cells;
    lemma_locate_from(cs, source_group(src), 0);
    let i = locate(cs, source_group(src)).unwrap();
    let c = cs[i];
    let d = detach(g, src);
    assert(size_ok(c, cols as int));
    match src {
        DragSourceView::Tile(_) => {
            lemma_mins_edit(cs, i, c, cols as int);
        },
        DragSourceView::Tab { panel, .. } => {
            let rest = group_without(c.group, panel);
            lemma_mins_edit(cs, i, CellView { group: rest, ..c }, cols as int);
        },
    }
    match t {
        DropTarget::Tab { group, index } => {
            lemma_locate_from(d.cells, group, 0);
            let k = locate(d.cells, group).unwrap();
            let dst = d.cells[k];
            let at = min_int(index as int, dst.group.tabs.len() as int);
            let nc = CellView { group: insert_tabs(dst.group, d.group.tabs, at), ..dst };
            assert(size_ok(dst, cols as int));
            lemma_mins_edit(d.cells, k, nc, cols as int);
            lemma_total_h_update(d.cells, k, nc);
            lemma_gravity_mins(d.cells.update(k, nc), None, cols as int);
        },
        DropTarget::Displace { x, y } => {
            let lc = landed(d, clamp_x(x, cols, d.w), y);
            lemma_mins_edit(d.cells, -1, lc, cols as int);
            lemma_total_h_push(d.cells, lc);
            lemma_gravity_mins(d.cells.push(lc), Some(d.cells.len() as usize), cols as int);
        },
        DropTarget::Pack { x } => {
            let x2 = clamp_x(x, cols, d.w);
            let lc = landed(d, x2, rest_height(d.cells, x2 as int, d.w as int) as u32);
            lemma_mins_edit(d.cells, -1, lc, cols as int);
            lemma_total_h_push(d.cells, lc);
            lemma_gravity_mins(d.cells.push(lc), None, cols as int);
        },
    }
}

} // verus!
