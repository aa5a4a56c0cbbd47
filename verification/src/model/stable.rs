//! When a reflow changes nothing: the stable sort really sorts, a settle leaves a grid alone when
//! every tile already rests where the settle would put it, and a packed grid settled in its own
//! top-to-bottom order is such a grid. Together: a layout right after a structural edit, whose
//! tiles already fit the view, reflows into that view unchanged.

use vstd::prelude::*;

use crate::model::layout::{
    cols_meet, edges_fit, is_perm, key_lt, insert_sorted, lemma_insert_sorted, lemma_settle_packed,
    lemma_sort_prefix_perm, lemma_top_ge, lemma_top_nonneg, packed, rects_meet, rests_on, same_but_y, settle,
    settle_steps, sort_prefix, sorted_order, top, total_h,
};
use crate::laws::law_reflow_idempotent;
use crate::model::packed::{
    clamp_x, detach, landed, lemma_locate_from, locate, source_group, DragSourceView, GridView, gravity_spec, lemma_gravity, lemma_pack_best, lemma_reranked, lemma_same_rects, lemma_total_h_same_heights,
    max_int, min_int, placed_cell, rank_keys, resized_cell, refit_cell, refit_keys, refit_spec, reranked, sat_sub, with_ranks, CellView,
};
use crate::model::group::{group_without, GroupView};

verus! {

/// `o` lists indices in `keys` order: each entry sorts strictly before every later one.
pub open spec fn sorted_by(o: Seq<usize>, keys: Seq<(u64, u64)>) -> bool {
    forall|p: int, q: int| 0 <= p < q < o.len() ==> key_lt(keys, #[trigger] o[p], #[trigger] o[q])
}

/// The sort order is a strict total order on distinct indices.
proof fn lemma_key_lt_order(keys: Seq<(u64, u64)>, a: usize, b: usize, c: usize)
    ensures
        !(key_lt(keys, a, b) && key_lt(keys, b, a)),
        a != b ==> key_lt(keys, a, b) || key_lt(keys, b, a),
        key_lt(keys, a, b) && key_lt(keys, b, c) ==> key_lt(keys, a, c),
{
}

proof fn lemma_insert_sorted_sorted(o: Seq<usize>, v: usize, keys: Seq<(u64, u64)>)
    requires
        sorted_by(o, keys),
        !o.contains(v),
    ensures
        sorted_by(insert_sorted(o, v, keys), keys),
    decreases o.len(),
{
    let r = insert_sorted(o, v, keys);
    if o.len() == 0 || !key_lt(keys, v, o.last()) {
        if o.len() > 0 {
            assert(o[o.len() - 1] == o.last());
            lemma_key_lt_order(keys, v, o.last(), v);
            assert forall|p: int| 0 <= p < o.len() implies key_lt(keys, #[trigger] o[p], v) by {
                if p < o.len() - 1 {
                    lemma_key_lt_order(keys, o[p], o.last(), v);
                }
            }
        }
        assert forall|p: int, q: int| 0 <= p < q < r.len() implies key_lt(keys, #[trigger] r[p], #[trigger] r[q]) by {
            if q < o.len() {
                assert(r[p] == o[p] && r[q] == o[q]);
            } else {
                assert(r[p] == o[p] && r[q] == v);
            }
        }
    } else {
        let pre = o.drop_last();
        let l = o.last();
        assert(sorted_by(pre, keys)) by {
            assert forall|p: int, q: int| 0 <= p < q < pre.len() implies key_lt(keys, #[trigger] pre[p], #[trigger] pre[q]) by {
                assert(pre[p] == o[p] && pre[q] == o[q]);
            }
        }
        assert(!pre.contains(v)) by {
            if pre.contains(v) {
                let k = choose|k: int| 0 <= k < pre.len() && pre[k] == v;
                assert(o[k] == v);
            }
        }
        lemma_insert_sorted_sorted(pre, v, keys);
        lemma_insert_sorted(pre, v, keys);
        let q0 = insert_sorted(pre, v, keys);
        assert(r == q0.push(l));
        assert forall|p: int| 0 <= p < q0.len() implies key_lt(keys, #[trigger] q0[p], l) by {
            assert(q0.contains(q0[p]));
            if pre.contains(q0[p]) {
                let k = choose|k: int| 0 <= k < pre.len() && pre[k] == q0[p];
                assert(o[k] == q0[p]);
                assert(o[o.len() - 1] == l);
            }
        }
        assert forall|p: int, q: int| 0 <= p < q < r.len() implies key_lt(keys, #[trigger] r[p], #[trigger] r[q]) by {
            if q < q0.len() {
                assert(r[p] == q0[p] && r[q] == q0[q]);
            } else {
                assert(r[p] == q0[p] && r[q] == l);
            }
        }
    }
}

/// The stable sort of `0..n` lists its indices in key order.
pub proof fn lemma_sort_prefix_sorted(keys: Seq<(u64, u64)>, n: int)
    requires
        0 <= n <= usize::MAX,
    ensures
        sorted_by(sort_prefix(keys, n), keys),
    decreases n,
{
    if n > 0 {
        let p = sort_prefix(keys, n - 1);
        lemma_sort_prefix_sorted(keys, n - 1);
        lemma_sort_prefix_perm(keys, n - 1);
        let v = (n - 1) as usize;
        assert(!p.contains(v)) by {
            if p.contains(v) {
                let k = choose|k: int| 0 <= k < p.len() && p[k] == v;
                assert(p[k] < n - 1);
            }
        }
        lemma_insert_sorted_sorted(p, v, keys);
    }
}

/// A settle leaves a grid alone when every tile already sits at the top of the tiles settled
/// before it.
pub proof fn lemma_settle_fixed(cs: Seq<CellView>, o: Seq<usize>)
    requires
        is_perm(o, cs.len() as int),
        forall|m: int| 0 <= m < o.len() ==> (#[trigger] cs[o[m] as int]).y == top(cs, o.take(m), cs[o[m] as int]),
    ensures
        settle(cs, o) == cs,
{
    lemma_settle_steps_fixed(cs, o, o.len() as int);
}

proof fn lemma_settle_steps_fixed(cs: Seq<CellView>, o: Seq<usize>, k: int)
    requires
        is_perm(o, cs.len() as int),
        0 <= k <= o.len(),
        forall|m: int| 0 <= m < o.len() ==> (#[trigger] cs[o[m] as int]).y == top(cs, o.take(m), cs[o[m] as int]),
    ensures
        settle_steps(cs, o, k) == cs,
    decreases k,
{
    if k > 0 {
        lemma_settle_steps_fixed(cs, o, k - 1);
        let i = o[k - 1] as int;
        assert(cs[o[k - 1] as int].y == top(cs, o.take(k - 1), cs[o[k - 1] as int]));
        assert(settle_steps(cs, o, k) =~= cs.update(i, CellView { y: cs[i].y, ..cs[i] }));
        assert(cs.update(i, CellView { y: cs[i].y, ..cs[i] }) =~= cs);
    }
}

/// The rest height among `idxs` of a tile is at most `bound` when every tile of `idxs` sharing
/// a column with it ends at or above `bound`.
proof fn lemma_top_le_meeting(s: Seq<CellView>, idxs: Seq<usize>, c: CellView, bound: int)
    requires
        bound >= 0,
        forall|t: int|
            0 <= t < idxs.len() && cols_meet(s[#[trigger] idxs[t] as int], c) ==> s[idxs[t] as int].y
                + s[idxs[t] as int].h <= bound,
    ensures
        top(s, idxs, c) <= bound,
    decreases idxs.len(),
{
    if idxs.len() > 0 {
        let pre = idxs.drop_last();
        assert forall|t: int| 0 <= t < pre.len() && cols_meet(s[#[trigger] pre[t] as int], c) implies s[pre[t] as int].y
            + s[pre[t] as int].h <= bound by {
            assert(pre[t] == idxs[t]);
        }
        lemma_top_le_meeting(s, pre, c, bound);
        assert(idxs[idxs.len() - 1] == idxs.last());
    }
}

/// In a packed grid of tiles at least one step tall, listed in an order that never puts a
/// higher row after a lower one, every tile sits at the top of the tiles listed before it.
pub proof fn lemma_packed_tops(cs: Seq<CellView>, o: Seq<usize>, m: int)
    requires
        packed(cs),
        cs.len() <= usize::MAX,
        forall|i: int| 0 <= i < cs.len() ==> (#[trigger] cs[i]).h >= 1,
        is_perm(o, cs.len() as int),
        forall|p: int, q: int|
            0 <= p < o.len() && 0 <= q < o.len() && (#[trigger] cs[o[p] as int]).y < (#[trigger] cs[o[q] as int]).y
                ==> p < q,
        0 <= m < o.len(),
    ensures
        cs[o[m] as int].y == top(cs, o.take(m), cs[o[m] as int]),
{
    let i = o[m] as int;
    let c = cs[i];
    let pre = o.take(m);
    assert forall|t: int| 0 <= t < pre.len() && cols_meet(cs[#[trigger] pre[t] as int], c) implies cs[pre[t] as int].y
        + cs[pre[t] as int].h <= c.y by {
        let j = pre[t] as int;
        assert(pre[t] == o[t]);
        assert(o[t] != o[m]);
        assert(cs[o[t] as int].y <= cs[o[m] as int].y) by {
            if cs[o[m] as int].y < cs[o[t] as int].y {
                assert(m < t);
            }
        }
        assert(!rects_meet(cs[j], cs[i])) by {
            if j < i {
                assert(!rects_meet(cs[j], cs[i]));
            } else {
                assert(!rects_meet(cs[i], cs[j]));
            }
        }
        assert(cs[i].h >= 1 && cs[j].h >= 1);
    }
    lemma_top_le_meeting(cs, pre, c, c.y as int);
    if c.y == 0 {
        lemma_top_nonneg(cs, pre, c);
    } else {
        assert(cs[i].y > 0);
        let j = choose|j: int| rests_on(cs, i, j);
        assert(cs[j].h >= 1);
        let ju = j as usize;
        assert(ju as int == j);
        assert(o.contains(ju));
        let t = choose|t: int| 0 <= t < o.len() && o[t] == ju;
        assert(cs[o[t] as int].y < cs[o[m] as int].y);
        assert(t < m);
        assert(pre[t] == o[t]);
        lemma_top_ge(cs, pre, c, t);
    }
}

/// Ranking gives the tile at each position of the order that position as its rank.
proof fn lemma_with_ranks_at(cs: Seq<CellView>, o: Seq<usize>, k: int, m: int)
    requires
        o.no_duplicates(),
        forall|q: int| 0 <= q < o.len() ==> #[trigger] o[q] < cs.len(),
        0 <= m < k <= o.len(),
        k - 1 <= u32::MAX,
    ensures
        with_ranks(cs, o, k)[o[m] as int].rank == m,
        with_ranks(cs, o, k).len() == cs.len(),
    decreases k,
{
    let s = with_ranks(cs, o, k - 1);
    if k > 1 {
        lemma_with_ranks_at(cs, o, k - 1, 0);
    }
    assert(s.len() == cs.len());
    let i = o[k - 1] as int;
    assert(with_ranks(cs, o, k) == s.update(i, CellView { rank: (k - 1) as u32, ..s[i] }));
    if m < k - 1 {
        lemma_with_ranks_at(cs, o, k - 1, m);
        assert(o[m] != o[k - 1]);
    } else {
        assert(((k - 1) as u32) as int == k - 1);
    }
}

/// Reflowing a tile into the view it already fits changes nothing.
pub open spec fn cell_fits(c: CellView, cols: int) -> bool {
    refit_cell(c, cols) == c
}

/// A packed layout ranked by its own top-to-bottom order, its tiles at least one step tall and
/// already fitting `cols` columns, reflows into `cols` columns unchanged: a layout right after a
/// structural edit reloads into its own view exactly as it was.
pub proof fn law_settled_layout_reflows_to_itself(g: Seq<CellView>, cols: int)
    requires
        1 <= cols <= u32::MAX,
        g.len() <= u32::MAX,
        packed(g),
        forall|i: int| 0 <= i < g.len() ==> (#[trigger] g[i]).h >= 1,
        forall|i: int| 0 <= i < g.len() ==> cell_fits(#[trigger] g[i], cols),
    ensures
        refit_spec(reranked(g), cols) == reranked(g),
{
    let n = g.len() as int;
    let r = reranked(g);
    lemma_reranked(g);
    lemma_same_rects(r, g);
    let ko = rank_keys(g);
    let o = sorted_order(ko);
    lemma_sort_prefix_perm(ko, n);
    lemma_sort_prefix_sorted(ko, n);
    let kr = refit_keys(r);
    let o2 = sorted_order(kr);
    lemma_sort_prefix_perm(kr, n);
    lemma_sort_prefix_sorted(kr, n);
    // The reflow's per-tile step is the identity on the reranked grid.
    let mapped = r.map_values(|c: CellView| refit_cell(c, cols));
    assert(mapped =~= r) by {
        assert forall|i: int| 0 <= i < r.len() implies mapped[i] == r[i] by {
            assert(r[i] == CellView { rank: r[i].rank, ..g[i] });
            assert(cell_fits(g[i], cols));
        }
    }
    // Every tile of the reranked grid is at least one step tall.
    assert forall|i: int| 0 <= i < r.len() implies (#[trigger] r[i]).h >= 1 by {
        assert(r[i] == CellView { rank: r[i].rank, ..g[i] });
        assert(g[i].h >= 1);
    }
    // Ranks are positions in the top-to-bottom order.
    assert forall|m: int| 0 <= m < n implies #[trigger] r[o[m] as int].rank == m by {
        lemma_with_ranks_at(g, o, n, m);
    }
    // The reflow's order never lists a higher row after a lower one.
    assert forall|p: int, q: int|
        0 <= p < o2.len() && 0 <= q < o2.len() && (#[trigger] r[o2[p] as int]).y < (#[trigger] r[o2[q] as int]).y
            implies p < q by {
        let a = o2[p];
        let b = o2[q];
        assert(r[a as int] == CellView { rank: r[a as int].rank, ..g[a as int] });
        assert(r[b as int] == CellView { rank: r[b as int].rank, ..g[b as int] });
        assert(key_lt(ko, a, b));
        assert(o.contains(a) && o.contains(b));
        let pa = choose|pa: int| 0 <= pa < o.len() && o[pa] == a;
        let pb = choose|pb: int| 0 <= pb < o.len() && o[pb] == b;
        assert(pa != pb);
        if pb < pa {
            assert(key_lt(ko, o[pb], o[pa]));
            lemma_key_lt_order(ko, a, b, a);
        }
        assert(r[o[pa] as int].rank == pa && r[o[pb] as int].rank == pb);
        assert(kr[a as int].0 < kr[b as int].0);
        assert(key_lt(kr, a, b));
        assert(p != q);
        if q < p {
            assert(key_lt(kr, o2[q], o2[p]));
            lemma_key_lt_order(kr, a, b, a);
        }
    }
    assert(packed(r));
    assert forall|m: int| 0 <= m < o2.len() implies (#[trigger] r[o2[m] as int]).y == top(r, o2.take(m), r[o2[m] as int]) by {
        lemma_packed_tops(r, o2, m);
    }
    lemma_settle_fixed(r, o2);
    assert(refit_spec(r, cols) == settle(mapped, o2));
}

/// Every tile is at least one step tall.
pub open spec fn tall(cs: Seq<CellView>) -> bool {
    forall|i: int| 0 <= i < cs.len() ==> (#[trigger] cs[i]).h >= 1
}

/// Reflowing the tiles into `cols` columns changes nothing, and every tile is at least one step
/// tall.
pub open spec fn reflow_stable(cs: Seq<CellView>, cols: int) -> bool {
    refit_spec(cs, cols) == cs && tall(cs)
}

/// Whether a tile fits the view does not depend on its row, its group or its rank.
pub proof fn lemma_fits_shape(a: CellView, b: CellView, cols: int)
    requires
        a.x == b.x && a.w == b.w && a.h == b.h && a.min_w == b.min_w && a.min_h == b.min_h,
        a.desired_w == b.desired_w && a.desired_x == b.desired_x,
    ensures
        cell_fits(a, cols) == cell_fits(b, cols),
{
}

/// In a layout that reflows into itself, every tile already fits the view.
pub proof fn lemma_stable_fits(cs: Seq<CellView>, cols: int)
    requires
        refit_spec(cs, cols) == cs,
        cs.len() <= usize::MAX,
        total_h(cs) <= u32::MAX,
    ensures
        forall|i: int| 0 <= i < cs.len() ==> cell_fits(#[trigger] cs[i], cols),
{
    let m = cs.map_values(|c: CellView| refit_cell(c, cols));
    let o = sorted_order(refit_keys(cs));
    lemma_sort_prefix_perm(refit_keys(cs), cs.len() as int);
    assert forall|j: int| 0 <= j < m.len() implies #[trigger] m[j].h == cs[j].h by {}
    lemma_total_h_same_heights(m, cs);
    lemma_settle_packed(m, o);
    assert forall|i: int| 0 <= i < cs.len() implies cell_fits(#[trigger] cs[i], cols) by {
        assert(same_but_y(settle(m, o)[i], m[i]));
        assert(m[i] == refit_cell(cs[i], cols));
    }
}

/// Tiles a settle has not reached yet are as they were.
proof fn lemma_settle_untouched(cs: Seq<CellView>, o: Seq<usize>, k: int, q: int)
    requires
        is_perm(o, cs.len() as int),
        0 <= k <= q < o.len(),
    ensures
        settle_steps(cs, o, k)[o[q] as int] == cs[o[q] as int],
        settle_steps(cs, o, k).len() == cs.len(),
    decreases k,
{
    if k > 0 {
        lemma_settle_untouched(cs, o, k - 1, q);
        assert(o[k - 1] != o[q]);
    }
}

/// A tile a settle has placed stays where it was placed.
proof fn lemma_settle_frozen(cs: Seq<CellView>, o: Seq<usize>, k: int, m: int)
    requires
        is_perm(o, cs.len() as int),
        0 <= m < k <= o.len(),
    ensures
        settle_steps(cs, o, k)[o[m] as int] == settle_steps(cs, o, m + 1)[o[m] as int],
        settle_steps(cs, o, k).len() == cs.len(),
    decreases k,
{
    if k > m + 1 {
        lemma_settle_frozen(cs, o, k - 1, m);
        assert(o[k - 1] != o[m]);
    } else if m > 0 {
        lemma_settle_untouched(cs, o, m, m);
    } else {
        lemma_settle_untouched(cs, o, 0, 0);
    }
}

/// The rest height reads only the rectangles of the listed tiles and the columns of the tile.
proof fn lemma_top_rects(s1: Seq<CellView>, s2: Seq<CellView>, idxs: Seq<usize>, c1: CellView, c2: CellView)
    requires
        c1.x == c2.x && c1.w == c2.w,
        forall|t: int|
            0 <= t < idxs.len() ==> (#[trigger] s1[idxs[t] as int]).x == s2[idxs[t] as int].x && s1[idxs[t] as int].w
                == s2[idxs[t] as int].w && s1[idxs[t] as int].y == s2[idxs[t] as int].y && s1[idxs[t] as int].h
                == s2[idxs[t] as int].h,
    ensures
        top(s1, idxs, c1) == top(s2, idxs, c2),
    decreases idxs.len(),
{
    if idxs.len() > 0 {
        let pre = idxs.drop_last();
        assert forall|t: int| 0 <= t < pre.len() implies (#[trigger] s1[pre[t] as int]).x == s2[pre[t] as int].x
            && s1[pre[t] as int].w == s2[pre[t] as int].w && s1[pre[t] as int].y == s2[pre[t] as int].y
            && s1[pre[t] as int].h == s2[pre[t] as int].h by {
            assert(pre[t] == idxs[t]);
        }
        lemma_top_rects(s1, s2, pre, c1, c2);
        assert(idxs[idxs.len() - 1] == idxs.last());
    }
}

/// A grid a settle leaves alone has every tile at the top of the tiles before it in the order.
pub proof fn lemma_settle_fixed_tops(cs: Seq<CellView>, o: Seq<usize>, m: int)
    requires
        is_perm(o, cs.len() as int),
        settle(cs, o) == cs,
        edges_fit(cs),
        0 <= m < o.len(),
    ensures
        cs[o[m] as int].y == top(cs, o.take(m), cs[o[m] as int]),
{
    let n = o.len() as int;
    let i = o[m] as int;
    let sm = settle_steps(cs, o, m);
    let pre = o.take(m);
    lemma_settle_untouched(cs, o, m, m);
    lemma_settle_frozen(cs, o, n, m);
    assert forall|t: int| 0 <= t < pre.len() implies sm[#[trigger] pre[t] as int] == cs[pre[t] as int] by {
        assert(pre[t] == o[t]);
        lemma_settle_frozen(cs, o, m, t);
        lemma_settle_frozen(cs, o, n, t);
    }
    assert forall|t: int| 0 <= t < pre.len() implies (#[trigger] sm[pre[t] as int]).x == cs[pre[t] as int].x
        && sm[pre[t] as int].w == cs[pre[t] as int].w && sm[pre[t] as int].y == cs[pre[t] as int].y
        && sm[pre[t] as int].h == cs[pre[t] as int].h by {
        assert(sm[pre[t] as int] == cs[pre[t] as int]);
    }
    lemma_top_rects(sm, cs, pre, sm[i], cs[i]);
    let t0 = top(cs, pre, cs[i]);
    lemma_top_nonneg(cs, pre, cs[i]);
    assert forall|t: int| 0 <= t < pre.len() implies cs[#[trigger] pre[t] as int].y + cs[pre[t] as int].h <= u32::MAX by {
        assert(cs[pre[t] as int].y + cs[pre[t] as int].h <= u32::MAX);
    }
    lemma_top_le_all(cs, pre, cs[i], u32::MAX as int);
    assert(settle(cs, o)[i] == settle_steps(cs, o, m + 1)[i]);
    assert(settle_steps(cs, o, m + 1)[i].y == t0 as u32);
}

proof fn lemma_top_le_all(s: Seq<CellView>, idxs: Seq<usize>, c: CellView, bound: int)
    requires
        bound >= 0,
        forall|t: int| 0 <= t < idxs.len() ==> s[#[trigger] idxs[t] as int].y + s[idxs[t] as int].h <= bound,
    ensures
        top(s, idxs, c) <= bound,
    decreases idxs.len(),
{
    if idxs.len() > 0 {
        let pre = idxs.drop_last();
        assert forall|t: int| 0 <= t < pre.len() implies s[#[trigger] pre[t] as int].y + s[pre[t] as int].h <= bound by {
            assert(pre[t] == idxs[t]);
        }
        lemma_top_le_all(s, pre, c, bound);
        assert(idxs[idxs.len() - 1] == idxs.last());
    }
}

/// Changing only the group of one tile keeps a layout that reflows into itself doing so.
pub proof fn lemma_stable_regroup(cs: Seq<CellView>, cols: int, i: int, c: CellView)
    requires
        reflow_stable(cs, cols),
        1 <= cols <= u32::MAX,
        cs.len() <= usize::MAX,
        edges_fit(cs),
        total_h(cs) <= u32::MAX,
        0 <= i < cs.len(),
        c == (CellView { group: c.group, ..cs[i] }),
    ensures
        reflow_stable(cs.update(i, c), cols),
{
    let u = cs.update(i, c);
    let o = sorted_order(refit_keys(cs));
    lemma_sort_prefix_perm(refit_keys(cs), cs.len() as int);
    assert(refit_keys(u) =~= refit_keys(cs));
    lemma_stable_fits(cs, cols);
    let m = cs.map_values(|x: CellView| refit_cell(x, cols));
    lemma_total_h_same_heights(m, cs);
    lemma_settle_packed(m, o);
    assert(m =~= cs) by {
        assert forall|j: int| 0 <= j < cs.len() implies m[j] == cs[j] by {
            assert(cell_fits(cs[j], cols));
        }
    }
    assert(settle(cs, o) == cs);
    let mu = u.map_values(|x: CellView| refit_cell(x, cols));
    assert(mu =~= u) by {
        assert forall|j: int| 0 <= j < u.len() implies mu[j] == u[j] by {
            assert(cell_fits(cs[j], cols));
            lemma_fits_shape(u[j], cs[j], cols);
        }
    }
    assert forall|q: int| 0 <= q < o.len() implies (#[trigger] u[o[q] as int]).y == top(u, o.take(q), u[o[q] as int]) by {
        lemma_settle_fixed_tops(cs, o, q);
        let pre = o.take(q);
        assert forall|t: int| 0 <= t < pre.len() implies (#[trigger] u[pre[t] as int]).x == cs[pre[t] as int].x
            && u[pre[t] as int].w == cs[pre[t] as int].w && u[pre[t] as int].y == cs[pre[t] as int].y
            && u[pre[t] as int].h == cs[pre[t] as int].h by {
            assert(pre[t] == o[t]);
            assert(o[t] < cs.len());
        }
        lemma_top_rects(u, cs, pre, u[o[q] as int], cs[o[q] as int]);
    }
    lemma_settle_fixed(u, o);
    assert(refit_spec(u, cols) == settle(mu, o));
    assert(tall(u)) by {
        assert forall|j: int| 0 <= j < u.len() implies (#[trigger] u[j]).h >= 1 by {
            assert(cs[j].h >= 1);
        }
    }
}

/// Every tile fits `cols` columns as it is.
pub open spec fn fits_all(cs: Seq<CellView>, cols: int) -> bool {
    forall|i: int| 0 <= i < cs.len() ==> cell_fits(#[trigger] cs[i], cols)
}

/// A grid of tiles at least one step tall holds no more tiles than its total height.
pub proof fn lemma_tall_len(cs: Seq<CellView>)
    requires
        tall(cs),
    ensures
        cs.len() <= total_h(cs),
    decreases cs.len(),
{
    if cs.len() > 0 {
        let p = cs.drop_last();
        assert(tall(p)) by {
            assert forall|i: int| 0 <= i < p.len() implies (#[trigger] p[i]).h >= 1 by {
                assert(p[i] == cs[i]);
            }
        }
        lemma_tall_len(p);
        assert(cs[cs.len() - 1] == cs.last());
    }
}

/// A packed grid of tall tiles that fit the view, ranked afresh, reflows into that view unchanged.
pub proof fn lemma_reranked_stable(x: Seq<CellView>, cols: int)
    requires
        1 <= cols <= u32::MAX,
        packed(x),
        tall(x),
        total_h(x) <= u32::MAX,
        fits_all(x, cols),
    ensures
        reflow_stable(reranked(x), cols),
{
    lemma_tall_len(x);
    law_settled_layout_reflows_to_itself(x, cols);
    lemma_reranked(x);
    let r = reranked(x);
    assert forall|i: int| 0 <= i < r.len() implies (#[trigger] r[i]).h >= 1 by {
        assert(r[i] == CellView { rank: r[i].rank, ..x[i] });
    }
}

/// Tall tiles that fit the view, settled under gravity and ranked afresh, reflow into that view
/// unchanged.
pub proof fn lemma_gravity_stable(u: Seq<CellView>, pin: Option<usize>, cols: int)
    requires
        1 <= cols <= u32::MAX,
        tall(u),
        total_h(u) <= u32::MAX,
        fits_all(u, cols),
    ensures
        reflow_stable(reranked(gravity_spec(u, pin)), cols),
{
    lemma_tall_len(u);
    lemma_gravity(u, pin);
    let g = gravity_spec(u, pin);
    assert forall|i: int| 0 <= i < g.len() implies (#[trigger] g[i]).h >= 1 && cell_fits(g[i], cols) by {
        assert(same_but_y(g[i], u[i]));
        lemma_fits_shape(g[i], u[i], cols);
    }
    lemma_reranked_stable(g, cols);
}

/// Tall tiles reflowed into a view reflow into that view unchanged, and stay tall.
pub proof fn lemma_refit_stable(cs: Seq<CellView>, c: int)
    requires
        1 <= c <= u32::MAX,
        tall(cs),
        total_h(cs) <= u32::MAX,
    ensures
        reflow_stable(refit_spec(cs, c), c),
        total_h(refit_spec(cs, c)) == total_h(cs),
{
    lemma_tall_len(cs);
    law_reflow_idempotent(cs, c);
    let m = cs.map_values(|x: CellView| refit_cell(x, c));
    let o = sorted_order(refit_keys(cs));
    lemma_sort_prefix_perm(refit_keys(cs), cs.len() as int);
    assert forall|j: int| 0 <= j < m.len() implies #[trigger] m[j].h == cs[j].h by {}
    lemma_total_h_same_heights(m, cs);
    lemma_settle_packed(m, o);
    let r = settle(m, o);
    assert forall|i: int| 0 <= i < r.len() implies (#[trigger] r[i]).h >= 1 by {
        assert(same_but_y(r[i], m[i]));
    }
    assert forall|i: int| 0 <= i < r.len() implies #[trigger] r[i].h == m[i].h by {
        assert(same_but_y(r[i], m[i]));
    }
    lemma_total_h_same_heights(r, m);
}

/// The tile `place` seats fits the view when its width, raised to its minimum, is at least one step.
pub proof fn lemma_placed_fits(cs: Seq<CellView>, g: GroupView, w: u32, h: u32, min: (u32, u32), cols: u32)
    requires
        1 <= cols,
        1 <= w || 1 <= min.0,
    ensures
        cell_fits(placed_cell(cs, g, w, h, min, cols), cols as int),
{
    let eff = min_int(max_int(w as int, min.0 as int), cols as int);
    lemma_pack_best(cs, eff, sat_sub(cols as int, eff) + 1);
}

/// Resizing a tile that fits the view keeps it fitting, as long as it stays at least one step
/// wide: the width is clamped to the span right of its left edge, which a fitting tile's minimum
/// never exceeds.
pub proof fn lemma_resized_fits(c: CellView, new_w: u32, new_h: u32, cols: u32)
    requires
        1 <= cols,
        cell_fits(c, cols as int),
        new_w >= 1 || c.min_w >= 1,
    ensures
        cell_fits(resized_cell(c, new_w, new_h, cols), cols as int),
{
}

/// What a drag takes out of a layout of tall tiles that fit the view leaves them so, and the tile
/// it re-homes, wherever it lands, is tall and fits too.
pub proof fn lemma_detach_stable(g: GridView, src: DragSourceView, x: u32, y: u32, cols: u32)
    requires
        1 <= cols,
        tall(g.cells),
        fits_all(g.cells, cols as int),
        locate(g.cells, source_group(src)) is Some,
    ensures
        tall(detach(g, src).cells),
        fits_all(detach(g, src).cells, cols as int),
        landed(detach(g, src), clamp_x(x, cols, detach(g, src).w), y).h >= 1,
        cell_fits(landed(detach(g, src), clamp_x(x, cols, detach(g, src).w), y), cols as int),
{
    let cs = g.cells;
    lemma_locate_from(cs, source_group(src), 0);
    let i = locate(cs, source_group(src)).unwrap();
    let c = cs[i];
    let d = detach(g, src);
    assert(cell_fits(c, cols as int));
    let removed = match src {
        DragSourceView::Tile(_) => true,
        DragSourceView::Tab { panel, .. } => group_without(c.group, panel).tabs.len() == 0,
    };
    if removed {
        let u = cs.remove(i);
        assert(d.cells == u);
        assert forall|j: int| 0 <= j < u.len() implies (#[trigger] u[j]).h >= 1 && cell_fits(u[j], cols as int) by {
            if j < i {
                assert(u[j] == cs[j]);
            } else {
                assert(u[j] == cs[j + 1]);
            }
        }
    } else {
        let u = d.cells;
        assert forall|j: int| 0 <= j < u.len() implies (#[trigger] u[j]).h >= 1 && cell_fits(u[j], cols as int) by {
            if j != i {
                assert(u[j] == cs[j]);
            } else {
                lemma_fits_shape(u[j], cs[j], cols as int);
            }
        }
    }
}

/// The empty layout reflows into any view unchanged.
pub proof fn lemma_empty_stable(cols: int)
    ensures
        reflow_stable(Seq::<CellView>::empty(), cols),
{
    let e = Seq::<CellView>::empty();
    lemma_sort_prefix_perm(refit_keys(e), 0);
    assert(e.map_values(|c: CellView| refit_cell(c, cols)) =~= e);
}

} // verus!
