//! Identities stay distinct: no two tiles host the same group, every group id lies below the next
//! one to mint, and no panel occurs twice anywhere in a grid. Counting is done with a few
//! recursive tallies, so that an edit of one tile changes a tally by what that tile contributed.

use vstd::prelude::*;

use crate::model::group::{first_pos, group_without, lemma_first_pos_from, GroupView};
use crate::model::layout::{
    lemma_settle_packed, lemma_sort_prefix_perm, lemma_total_h_update, rest_height, same_but_y, settle, sorted_order,
    total_h,
};
use crate::model::packed::{
    add_tab_spec, clamp_x, close_spec, detach, drop_is_noop, drop_ok, drop_spec, gravity_spec, insert_tabs, landed,
    lemma_detach, lemma_gravity, lemma_locate_from, lemma_reranked, lemma_total_h_push, lemma_total_h_remove,
    lemma_total_h_same_heights, locate, min_int, place_spec, placed_cell, refit_cell, refit_keys, refit_spec, reranked,
    resize_ok, resize_spec, resized_cell, source_group, CellView, DragSourceView, DropTarget, GridView,
};
use crate::model::GroupId;

verus! {

/// How many items of `cs` satisfy `f`.
pub open spec fn count<T>(cs: Seq<T>, f: spec_fn(T) -> bool) -> nat
    decreases cs.len(),
{
    if cs.len() == 0 {
        0
    } else {
        count(cs.drop_last(), f) + if f(cs.last()) {
            1nat
        } else {
            0nat
        }
    }
}

/// How many tiles of `cs` host group `id`.
pub open spec fn id_count(cs: Seq<CellView>, id: GroupId) -> nat {
    count(cs, |c: CellView| c.group.id == id)
}

/// How many tiles of `cs` list panel `p` in their strip.
pub open spec fn host_count(cs: Seq<CellView>, p: Seq<char>) -> nat {
    count(cs, |c: CellView| c.group.tabs.contains(p))
}

/// How often panel `p` occurs in strip `tabs`.
pub open spec fn occ(tabs: Seq<Seq<char>>, p: Seq<char>) -> nat
    decreases tabs.len(),
{
    if tabs.len() == 0 {
        0
    } else {
        occ(tabs.drop_last(), p) + if tabs.last() == p {
            1nat
        } else {
            0nat
        }
    }
}

/// How often panel `p` occurs across all strips of `cs`.
pub open spec fn occ_all(cs: Seq<CellView>, p: Seq<char>) -> nat
    decreases cs.len(),
{
    if cs.len() == 0 {
        0
    } else {
        occ_all(cs.drop_last(), p) + occ(cs.last().group.tabs, p)
    }
}

/// No two tiles host the same group.
pub open spec fn ids_unique(cs: Seq<CellView>) -> bool {
    forall|id: GroupId| #[trigger] id_count(cs, id) <= 1
}

/// Every group id lies below `n`.
pub open spec fn ids_below(cs: Seq<CellView>, n: u64) -> bool {
    forall|i: int| 0 <= i < cs.len() ==> (#[trigger] cs[i]).group.id.0 < n
}

/// No panel occurs twice, within a strip or across strips.
pub open spec fn panels_unique(cs: Seq<CellView>) -> bool {
    forall|p: Seq<char>| #[trigger] occ_all(cs, p) <= 1
}

/// The identities of a grid are distinct: groups, the ids minted so far, and panels.
pub open spec fn distinct(g: GridView) -> bool {
    &&& ids_unique(g.cells)
    &&& ids_below(g.cells, g.next_group_id)
    &&& panels_unique(g.cells)
}

/// Panel `p` occurs nowhere in `cs`.
pub open spec fn fresh_panel(cs: Seq<CellView>, p: Seq<char>) -> bool {
    occ_all(cs, p) == 0
}

/// Group `g` may join grid `grid`: no tile hosts its id, which is already minted, its strip
/// repeats no panel, and none of its panels occurs in the grid.
pub open spec fn fresh_group(grid: GridView, g: GroupView) -> bool {
    &&& locate(grid.cells, g.id) is None
    &&& g.id.0 < grid.next_group_id
    &&& g.tabs.no_duplicates()
    &&& forall|k: int| 0 <= k < g.tabs.len() ==> fresh_panel(grid.cells, #[trigger] g.tabs[k])
}

// ------------------------------------------------------------------ tallies of tiles

/// Adding an item adds what it contributes.
pub proof fn lemma_count_push<T>(cs: Seq<T>, c: T, f: spec_fn(T) -> bool)
    ensures
        count(cs.push(c), f) == count(cs, f) + if f(c) {
            1nat
        } else {
            0nat
        },
{
    assert(cs.push(c).drop_last() =~= cs);
}

/// Replacing an item swaps its contribution.
pub proof fn lemma_count_update<T>(cs: Seq<T>, i: int, c: T, f: spec_fn(T) -> bool)
    requires
        0 <= i < cs.len(),
    ensures
        count(cs.update(i, c), f) + (if f(cs[i]) {
            1nat
        } else {
            0nat
        }) == count(cs, f) + if f(c) {
            1nat
        } else {
            0nat
        },
    decreases cs.len(),
{
    let u = cs.update(i, c);
    if i < cs.len() - 1 {
        assert(u.drop_last() =~= cs.drop_last().update(i, c));
        lemma_count_update(cs.drop_last(), i, c, f);
        assert(u.last() == cs.last());
    } else {
        assert(u.drop_last() =~= cs.drop_last());
    }
}

/// Taking an item out takes its contribution out.
pub proof fn lemma_count_remove<T>(cs: Seq<T>, i: int, f: spec_fn(T) -> bool)
    requires
        0 <= i < cs.len(),
    ensures
        count(cs.remove(i), f) + (if f(cs[i]) {
            1nat
        } else {
            0nat
        }) == count(cs, f),
    decreases cs.len(),
{
    let r = cs.remove(i);
    if i < cs.len() - 1 {
        assert(r.drop_last() =~= cs.drop_last().remove(i));
        lemma_count_remove(cs.drop_last(), i, f);
        assert(r.last() == cs.last());
    } else {
        assert(r =~= cs.drop_last());
    }
}

/// Sequences whose items agree, index by index, on `f` and `g` have the same tallies.
pub proof fn lemma_count_same<A, B>(a: Seq<A>, b: Seq<B>, f: spec_fn(A) -> bool, g: spec_fn(B) -> bool)
    requires
        a.len() == b.len(),
        forall|i: int| 0 <= i < a.len() ==> f(#[trigger] a[i]) == g(b[i]),
    ensures
        count(a, f) == count(b, g),
    decreases a.len(),
{
    if a.len() > 0 {
        let a0 = a.drop_last();
        let b0 = b.drop_last();
        assert forall|i: int| 0 <= i < a0.len() implies f(#[trigger] a0[i]) == g(b0[i]) by {
            assert(a0[i] == a[i] && b0[i] == b[i]);
        }
        lemma_count_same(a0, b0, f, g);
        assert(f(a[a.len() - 1]) == g(b[b.len() - 1]));
    }
}

/// Two distinct items satisfying `f` make a tally of at least two; one makes at least one.
pub proof fn lemma_count_members<T>(cs: Seq<T>, f: spec_fn(T) -> bool, i: int, j: int)
    requires
        0 <= i < cs.len(),
        0 <= j < cs.len(),
        f(cs[i]),
        f(cs[j]),
    ensures
        count(cs, f) >= 1,
        i != j ==> count(cs, f) >= 2,
    decreases cs.len(),
{
    let n = cs.len() - 1;
    let p = cs.drop_last();
    if i < n && j < n {
        assert(p[i] == cs[i] && p[j] == cs[j]);
        lemma_count_members(p, f, i, j);
    } else if i < n {
        assert(p[i] == cs[i]);
        lemma_count_members(p, f, i, i);
    } else if j < n {
        assert(p[j] == cs[j]);
        lemma_count_members(p, f, j, j);
    }
}

// ------------------------------------------------------------------ occurrences of panels

/// Occurrences in a concatenation add up.
pub proof fn lemma_occ_add(a: Seq<Seq<char>>, b: Seq<Seq<char>>, p: Seq<char>)
    ensures
        occ(a + b, p) == occ(a, p) + occ(b, p),
    decreases b.len(),
{
    if b.len() > 0 {
        assert((a + b).drop_last() =~= a + b.drop_last());
        lemma_occ_add(a, b.drop_last(), p);
        assert((a + b).last() == b.last());
    } else {
        assert(a + b =~= a);
    }
}

/// Taking a tab out of a strip takes its occurrence out.
pub proof fn lemma_occ_remove(tabs: Seq<Seq<char>>, k: int, p: Seq<char>)
    requires
        0 <= k < tabs.len(),
    ensures
        occ(tabs.remove(k), p) + (if tabs[k] == p {
            1nat
        } else {
            0nat
        }) == occ(tabs, p),
{
    let a = tabs.take(k);
    let b = tabs.skip(k + 1);
    assert(tabs.remove(k) =~= a + b);
    assert(tabs =~= a + (seq![tabs[k]] + b));
    lemma_occ_add(a, b, p);
    lemma_occ_add(a, seq![tabs[k]] + b, p);
    lemma_occ_add(seq![tabs[k]], b, p);
    let one = seq![tabs[k]];
    assert(one.drop_last() =~= Seq::<Seq<char>>::empty());
    assert(one.last() == tabs[k]);
    assert(occ(one.drop_last(), p) == 0);
}

/// A strip lists `p` exactly when `p` occurs in it; two slots holding `p` make two occurrences.
pub proof fn lemma_occ_members(tabs: Seq<Seq<char>>, p: Seq<char>, a: int, b: int)
    requires
        0 <= a < tabs.len(),
        0 <= b < tabs.len(),
        tabs[a] == p,
        tabs[b] == p,
    ensures
        occ(tabs, p) >= 1,
        a != b ==> occ(tabs, p) >= 2,
    decreases tabs.len(),
{
    let n = tabs.len() - 1;
    let q = tabs.drop_last();
    if a < n && b < n {
        assert(q[a] == tabs[a] && q[b] == tabs[b]);
        lemma_occ_members(q, p, a, b);
    } else if a < n {
        assert(q[a] == tabs[a]);
        lemma_occ_members(q, p, a, a);
    } else if b < n {
        assert(q[b] == tabs[b]);
        lemma_occ_members(q, p, b, b);
    }
}

/// A strip with no occurrence of `p` does not list it.
pub proof fn lemma_occ_zero(tabs: Seq<Seq<char>>, p: Seq<char>)
    ensures
        tabs.contains(p) <==> occ(tabs, p) > 0,
    decreases tabs.len(),
{
    if tabs.len() > 0 {
        let q = tabs.drop_last();
        lemma_occ_zero(q, p);
        if tabs.contains(p) {
            let k = choose|k: int| 0 <= k < tabs.len() && tabs[k] == p;
            lemma_occ_members(tabs, p, k, k);
        }
        if q.contains(p) {
            let k = choose|k: int| 0 <= k < q.len() && q[k] == p;
            assert(tabs[k] == p);
        }
        if tabs.last() == p {
            assert(tabs[tabs.len() - 1] == p);
        }
    }
}

/// Adding a tile adds its strip's occurrences.
pub proof fn lemma_occ_all_push(cs: Seq<CellView>, c: CellView, p: Seq<char>)
    ensures
        occ_all(cs.push(c), p) == occ_all(cs, p) + occ(c.group.tabs, p),
{
    assert(cs.push(c).drop_last() =~= cs);
}

/// Replacing a tile swaps its strip's occurrences.
pub proof fn lemma_occ_all_update(cs: Seq<CellView>, i: int, c: CellView, p: Seq<char>)
    requires
        0 <= i < cs.len(),
    ensures
        occ_all(cs.update(i, c), p) + occ(cs[i].group.tabs, p) == occ_all(cs, p) + occ(c.group.tabs, p),
    decreases cs.len(),
{
    let u = cs.update(i, c);
    if i < cs.len() - 1 {
        assert(u.drop_last() =~= cs.drop_last().update(i, c));
        lemma_occ_all_update(cs.drop_last(), i, c, p);
        assert(u.last() == cs.last());
    } else {
        assert(u.drop_last() =~= cs.drop_last());
    }
}

/// Taking a tile out takes its strip's occurrences out.
pub proof fn lemma_occ_all_remove(cs: Seq<CellView>, i: int, p: Seq<char>)
    requires
        0 <= i < cs.len(),
    ensures
        occ_all(cs.remove(i), p) + occ(cs[i].group.tabs, p) == occ_all(cs, p),
    decreases cs.len(),
{
    let r = cs.remove(i);
    if i < cs.len() - 1 {
        assert(r.drop_last() =~= cs.drop_last().remove(i));
        lemma_occ_all_remove(cs.drop_last(), i, p);
        assert(r.last() == cs.last());
    } else {
        assert(r =~= cs.drop_last());
    }
}

/// Tiles carrying the same strips, index by index, have the same occurrences.
pub proof fn lemma_occ_all_same(a: Seq<CellView>, b: Seq<CellView>, p: Seq<char>)
    requires
        a.len() == b.len(),
        forall|i: int| 0 <= i < a.len() ==> #[trigger] a[i].group.tabs == b[i].group.tabs,
    ensures
        occ_all(a, p) == occ_all(b, p),
    decreases a.len(),
{
    if a.len() > 0 {
        let a0 = a.drop_last();
        let b0 = b.drop_last();
        assert forall|i: int| 0 <= i < a0.len() implies #[trigger] a0[i].group.tabs == b0[i].group.tabs by {
            assert(a0[i] == a[i] && b0[i] == b[i]);
        }
        lemma_occ_all_same(a0, b0, p);
        assert(a[a.len() - 1].group.tabs == b[b.len() - 1].group.tabs);
    }
}

/// A tile's occurrences are among the grid's.
pub proof fn lemma_occ_all_ge(cs: Seq<CellView>, i: int, p: Seq<char>)
    requires
        0 <= i < cs.len(),
    ensures
        occ_all(cs, p) >= occ(cs[i].group.tabs, p),
    decreases cs.len(),
{
    let q = cs.drop_last();
    if i < cs.len() - 1 {
        assert(q[i] == cs[i]);
        lemma_occ_all_ge(q, i, p);
    }
}

/// Each tile listing `p` holds at least one of its occurrences.
pub proof fn lemma_host_le_occ(cs: Seq<CellView>, p: Seq<char>)
    ensures
        host_count(cs, p) <= occ_all(cs, p),
    decreases cs.len(),
{
    let f = |c: CellView| c.group.tabs.contains(p);
    if cs.len() > 0 {
        let q = cs.drop_last();
        lemma_host_le_occ(q, p);
        lemma_occ_zero(cs.last().group.tabs, p);
        assert(host_count(cs, p) == count(q, f) + if f(cs.last()) {
            1nat
        } else {
            0nat
        });
    }
}

// ------------------------------------------------------------------ distinct grids

/// A tally never exceeds the number of items.
pub proof fn lemma_count_le_len<T>(cs: Seq<T>, f: spec_fn(T) -> bool)
    ensures
        count(cs, f) <= cs.len(),
    decreases cs.len(),
{
    if cs.len() > 0 {
        lemma_count_le_len(cs.drop_last(), f);
    }
}

/// No item satisfying `f` makes a tally of zero.
pub proof fn lemma_count_none<T>(cs: Seq<T>, f: spec_fn(T) -> bool)
    requires
        forall|i: int| 0 <= i < cs.len() ==> !f(#[trigger] cs[i]),
    ensures
        count(cs, f) == 0,
    decreases cs.len(),
{
    if cs.len() > 0 {
        let q = cs.drop_last();
        assert forall|i: int| 0 <= i < q.len() implies !f(#[trigger] q[i]) by {
            assert(q[i] == cs[i]);
        }
        lemma_count_none(q, f);
        assert(!f(cs[cs.len() - 1]));
    }
}

/// A group [`locate`] does not find is hosted by no tile.
pub proof fn lemma_unhosted(cs: Seq<CellView>, id: GroupId)
    requires
        locate(cs, id) is None,
    ensures
        id_count(cs, id) == 0,
{
    lemma_locate_from(cs, id, 0);
    lemma_count_none(cs, |c: CellView| c.group.id == id);
}

/// A strip without repeats has each panel at most once.
pub proof fn lemma_occ_nodup(tabs: Seq<Seq<char>>, p: Seq<char>)
    requires
        tabs.no_duplicates(),
    ensures
        occ(tabs, p) <= 1,
    decreases tabs.len(),
{
    if tabs.len() > 0 {
        let q = tabs.drop_last();
        assert(q.no_duplicates()) by {
            assert forall|a: int, b: int| 0 <= a < q.len() && 0 <= b < q.len() && a != b implies q[a] != q[b] by {
                assert(q[a] == tabs[a] && q[b] == tabs[b]);
            }
        }
        lemma_occ_nodup(q, p);
        if tabs.last() == p {
            lemma_occ_zero(q, p);
            if q.contains(p) {
                let k = choose|k: int| 0 <= k < q.len() && q[k] == p;
                assert(tabs[k] == tabs[tabs.len() - 1]);
            }
        }
    }
}

/// Grids that carry the same groups, index by index, and mint from the same id are distinct
/// alike.
pub proof fn lemma_distinct_same_groups(a: GridView, b: GridView)
    requires
        a.cells.len() == b.cells.len(),
        forall|i: int| 0 <= i < a.cells.len() ==> #[trigger] a.cells[i].group == b.cells[i].group,
        a.next_group_id == b.next_group_id,
    ensures
        distinct(a) == distinct(b),
{
    assert forall|id: GroupId| #[trigger] id_count(a.cells, id) == id_count(b.cells, id) by {
        let f = |c: CellView| c.group.id == id;
        assert forall|i: int| 0 <= i < a.cells.len() implies f(#[trigger] a.cells[i]) == f(b.cells[i]) by {
            assert(a.cells[i].group == b.cells[i].group);
        }
        lemma_count_same(a.cells, b.cells, f, f);
    }
    assert forall|p: Seq<char>| #[trigger] occ_all(a.cells, p) == occ_all(b.cells, p) by {
        assert forall|i: int| 0 <= i < a.cells.len() implies #[trigger] a.cells[i].group.tabs == b.cells[i].group.tabs by {
            assert(a.cells[i].group == b.cells[i].group);
        }
        lemma_occ_all_same(a.cells, b.cells, p);
    }
    assert(ids_unique(a.cells) == ids_unique(b.cells)) by {
        if ids_unique(a.cells) {
            assert forall|id: GroupId| #[trigger] id_count(b.cells, id) <= 1 by {
                assert(id_count(a.cells, id) <= 1);
            }
        }
        if ids_unique(b.cells) {
            assert forall|id: GroupId| #[trigger] id_count(a.cells, id) <= 1 by {
                assert(id_count(b.cells, id) <= 1);
            }
        }
    }
    assert(panels_unique(a.cells) == panels_unique(b.cells)) by {
        if panels_unique(a.cells) {
            assert forall|p: Seq<char>| #[trigger] occ_all(b.cells, p) <= 1 by {
                assert(occ_all(a.cells, p) <= 1);
            }
        }
        if panels_unique(b.cells) {
            assert forall|p: Seq<char>| #[trigger] occ_all(a.cells, p) <= 1 by {
                assert(occ_all(b.cells, p) <= 1);
            }
        }
    }
    assert(ids_below(a.cells, a.next_group_id) == ids_below(b.cells, b.next_group_id)) by {
        if ids_below(a.cells, a.next_group_id) {
            assert forall|i: int| 0 <= i < b.cells.len() implies (#[trigger] b.cells[i]).group.id.0 < b.next_group_id by {
                assert(a.cells[i].group == b.cells[i].group);
            }
        }
        if ids_below(b.cells, b.next_group_id) {
            assert forall|i: int| 0 <= i < a.cells.len() implies (#[trigger] a.cells[i]).group.id.0 < a.next_group_id by {
                assert(a.cells[i].group == b.cells[i].group);
            }
        }
    }
}

/// Taking a tile out keeps the identities distinct.
pub proof fn lemma_distinct_remove(cs: Seq<CellView>, i: int, n: u64)
    requires
        ids_unique(cs),
        ids_below(cs, n),
        panels_unique(cs),
        0 <= i < cs.len(),
    ensures
        ids_unique(cs.remove(i)),
        ids_below(cs.remove(i), n),
        panels_unique(cs.remove(i)),
        forall|p: Seq<char>| #[trigger] occ_all(cs.remove(i), p) + occ(cs[i].group.tabs, p) == occ_all(cs, p),
{
    let r = cs.remove(i);
    assert forall|id: GroupId| #[trigger] id_count(r, id) <= 1 by {
        lemma_count_remove(cs, i, |c: CellView| c.group.id == id);
        assert(id_count(cs, id) <= 1);
    }
    assert forall|j: int| 0 <= j < r.len() implies (#[trigger] r[j]).group.id.0 < n by {
        if j < i {
            assert(r[j] == cs[j]);
        } else {
            assert(r[j] == cs[j + 1]);
        }
    }
    assert forall|p: Seq<char>| #[trigger] occ_all(r, p) + occ(cs[i].group.tabs, p) == occ_all(cs, p) by {
        lemma_occ_all_remove(cs, i, p);
    }
    assert forall|p: Seq<char>| #[trigger] occ_all(r, p) <= 1 by {
        lemma_occ_all_remove(cs, i, p);
        assert(occ_all(cs, p) <= 1);
    }
}

/// Replacing a tile's group by one with the same id keeps the ids distinct, and swaps the
/// tile's panel occurrences for the new group's.
pub proof fn lemma_distinct_regroup(cs: Seq<CellView>, i: int, c: CellView, n: u64)
    requires
        ids_unique(cs),
        ids_below(cs, n),
        0 <= i < cs.len(),
        c == (CellView { group: c.group, ..cs[i] }),
        c.group.id == cs[i].group.id,
    ensures
        ids_unique(cs.update(i, c)),
        ids_below(cs.update(i, c), n),
        forall|p: Seq<char>|
            #[trigger] occ_all(cs.update(i, c), p) + occ(cs[i].group.tabs, p) == occ_all(cs, p) + occ(c.group.tabs, p),
{
    let u = cs.update(i, c);
    assert forall|id: GroupId| #[trigger] id_count(u, id) <= 1 by {
        let f = |x: CellView| x.group.id == id;
        assert forall|j: int| 0 <= j < u.len() implies f(#[trigger] u[j]) == f(cs[j]) by {
            if j != i {
                assert(u[j] == cs[j]);
            }
        }
        lemma_count_same(u, cs, f, f);
        assert(id_count(cs, id) <= 1);
    }
    assert forall|j: int| 0 <= j < u.len() implies (#[trigger] u[j]).group.id.0 < n by {
        if j != i {
            assert(u[j] == cs[j]);
        } else {
            assert(cs[i].group.id.0 < n);
        }
    }
    assert forall|p: Seq<char>|
        #[trigger] occ_all(u, p) + occ(cs[i].group.tabs, p) == occ_all(cs, p) + occ(c.group.tabs, p) by {
        lemma_occ_all_update(cs, i, c, p);
    }
}

/// Taking panel `p` out of a group that lists it drops exactly that occurrence.
pub proof fn lemma_occ_without(g: GroupView, p: Seq<char>, q: Seq<char>)
    requires
        g.tabs.contains(p),
    ensures
        occ(group_without(g, p).tabs, q) + (if p == q {
            1nat
        } else {
            0nat
        }) == occ(g.tabs, q),
        group_without(g, p).id == g.id,
{
    lemma_first_pos_from(g.tabs, p, 0);
    let k0 = choose|k: int| 0 <= k < g.tabs.len() && g.tabs[k] == p;
    if first_pos(g.tabs, p) is None {
        assert(g.tabs[k0] != p);
    }
    let k = first_pos(g.tabs, p).unwrap();
    lemma_occ_remove(g.tabs, k, q);
}

// ------------------------------------------------------------------ edits that keep identities

/// Ranking afresh keeps every tile's group.
pub proof fn lemma_groups_reranked(cs: Seq<CellView>)
    requires
        cs.len() <= usize::MAX,
    ensures
        reranked(cs).len() == cs.len(),
        forall|i: int| 0 <= i < cs.len() ==> #[trigger] reranked(cs)[i].group == cs[i].group,
{
    lemma_reranked(cs);
    assert forall|i: int| 0 <= i < cs.len() implies #[trigger] reranked(cs)[i].group == cs[i].group by {
        assert(reranked(cs)[i] == CellView { rank: reranked(cs)[i].rank, ..cs[i] });
    }
}

/// Settling under gravity and ranking afresh keep every tile's group.
pub proof fn lemma_groups_gravity(cs: Seq<CellView>, pin: Option<usize>)
    requires
        cs.len() <= usize::MAX,
        total_h(cs) <= u32::MAX,
    ensures
        reranked(gravity_spec(cs, pin)).len() == cs.len(),
        forall|i: int| 0 <= i < cs.len() ==> #[trigger] reranked(gravity_spec(cs, pin))[i].group == cs[i].group,
{
    lemma_gravity(cs, pin);
    let g = gravity_spec(cs, pin);
    lemma_groups_reranked(g);
    assert forall|i: int| 0 <= i < cs.len() implies #[trigger] reranked(g)[i].group == cs[i].group by {
        assert(same_but_y(g[i], cs[i]));
    }
}

/// A reflow keeps every tile's group.
pub proof fn lemma_groups_refit(cs: Seq<CellView>, c: int)
    requires
        cs.len() <= usize::MAX,
        total_h(cs) <= u32::MAX,
    ensures
        refit_spec(cs, c).len() == cs.len(),
        forall|i: int| 0 <= i < cs.len() ==> #[trigger] refit_spec(cs, c)[i].group == cs[i].group,
{
    let m = cs.map_values(|x: CellView| refit_cell(x, c));
    let o = sorted_order(refit_keys(cs));
    lemma_sort_prefix_perm(refit_keys(cs), cs.len() as int);
    assert forall|j: int| 0 <= j < m.len() implies #[trigger] m[j].h == cs[j].h by {}
    lemma_total_h_same_heights(m, cs);
    lemma_settle_packed(m, o);
    assert forall|i: int| 0 <= i < cs.len() implies #[trigger] refit_spec(cs, c)[i].group == cs[i].group by {
        assert(same_but_y(settle(m, o)[i], m[i]));
    }
}

/// A reflow keeps a grid's identities distinct.
pub proof fn lemma_refit_distinct(g: GridView, c: int)
    requires
        distinct(g),
        g.cells.len() <= usize::MAX,
        total_h(g.cells) <= u32::MAX,
    ensures
        distinct(GridView { cells: refit_spec(g.cells, c), ..g }),
{
    lemma_groups_refit(g.cells, c);
    lemma_distinct_same_groups(GridView { cells: refit_spec(g.cells, c), ..g }, g);
}

/// Placing a group no tile hosts, with an id already minted and panels that repeat neither in
/// its strip nor anywhere in the grid, keeps the identities distinct.
pub proof fn lemma_place_distinct(g: GridView, group: GroupView, w: u32, h: u32, min: (u32, u32), cols: u32)
    requires
        distinct(g),
        g.cells.len() + 1 <= usize::MAX,
        fresh_group(g, group),
    ensures
        distinct(place_spec(g, group, w, h, min, cols)),
{
    let cs = g.cells;
    let c = placed_cell(cs, group, w, h, min, cols);
    let x = cs.push(c);
    lemma_groups_reranked(x);
    lemma_distinct_same_groups(place_spec(g, group, w, h, min, cols), GridView { cells: x, ..g });
    lemma_unhosted(cs, group.id);
    assert forall|id: GroupId| #[trigger] id_count(x, id) <= 1 by {
        lemma_count_push(cs, c, |y: CellView| y.group.id == id);
        assert(id_count(cs, id) <= 1);
    }
    assert forall|i: int| 0 <= i < x.len() implies (#[trigger] x[i]).group.id.0 < g.next_group_id by {
        if i < cs.len() {
            assert(x[i] == cs[i]);
        }
    }
    assert forall|p: Seq<char>| #[trigger] occ_all(x, p) <= 1 by {
        lemma_occ_all_push(cs, c, p);
        lemma_occ_nodup(group.tabs, p);
        lemma_occ_zero(group.tabs, p);
        if group.tabs.contains(p) {
            let k = choose|k: int| 0 <= k < group.tabs.len() && group.tabs[k] == p;
            assert(fresh_panel(cs, group.tabs[k]));
        } else {
            assert(occ_all(cs, p) <= 1);
        }
    }
}

/// Opening a panel that occurs nowhere in the grid as a tab keeps the identities distinct.
pub proof fn lemma_add_tab_distinct(g: GridView, id: GroupId, panel: Seq<char>)
    requires
        distinct(g),
        locate(g.cells, id) is Some,
        fresh_panel(g.cells, panel),
    ensures
        distinct(add_tab_spec(g, id, panel)),
{
    let cs = g.cells;
    lemma_locate_from(cs, id, 0);
    let i = locate(cs, id).unwrap();
    let c = cs[i];
    let ng = GroupView { id: c.group.id, tabs: c.group.tabs.push(panel), active: c.group.tabs.len() as int };
    let nc = CellView { group: ng, ..c };
    lemma_distinct_regroup(cs, i, nc, g.next_group_id);
    assert forall|p: Seq<char>| #[trigger] occ_all(cs.update(i, nc), p) <= 1 by {
        assert(ng.tabs.drop_last() =~= c.group.tabs);
        assert(occ_all(cs.update(i, nc), p) + occ(c.group.tabs, p) == occ_all(cs, p) + occ(ng.tabs, p));
        assert(occ_all(cs, p) <= 1);
    }
}

/// Closing the active tab of a pane keeps the identities distinct.
pub proof fn lemma_close_distinct(g: GridView, id: GroupId)
    requires
        distinct(g),
        g.cells.len() <= usize::MAX,
        total_h(g.cells) <= u32::MAX,
        locate(g.cells, id) matches Some(i) && 0 <= g.cells[i].group.active < g.cells[i].group.tabs.len(),
    ensures
        distinct(close_spec(g, id)),
{
    let cs = g.cells;
    lemma_locate_from(cs, id, 0);
    let i = locate(cs, id).unwrap();
    let c = cs[i];
    let t = c.group.tabs[c.group.active];
    let ng = group_without(c.group, t);
    assert(c.group.tabs.contains(t));
    lemma_occ_without(c.group, t, t);
    if ng.tabs.len() == 0 {
        lemma_distinct_remove(cs, i, g.next_group_id);
        let r = cs.remove(i);
        lemma_total_h_remove(cs, i);
        lemma_groups_gravity(r, None);
        lemma_distinct_same_groups(close_spec(g, id), GridView { cells: r, ..g });
    } else {
        let nc = CellView { group: ng, ..c };
        lemma_distinct_regroup(cs, i, nc, g.next_group_id);
        assert forall|p: Seq<char>| #[trigger] occ_all(cs.update(i, nc), p) <= 1 by {
            lemma_occ_without(c.group, t, p);
            assert(occ_all(cs, p) <= 1);
        }
    }
}

/// Resizing a tile keeps the identities distinct.
pub proof fn lemma_resize_distinct(g: GridView, idx: usize, new_w: u32, new_h: u32, cols: u32)
    requires
        distinct(g),
        g.cells.len() <= usize::MAX,
        resize_ok(g, idx, new_w, new_h, cols),
    ensures
        distinct(resize_spec(g, idx, new_w, new_h, cols)),
{
    let u = g.cells.update(idx as int, resized_cell(g.cells[idx as int], new_w, new_h, cols));
    lemma_groups_gravity(u, Some(idx));
    assert forall|i: int| 0 <= i < u.len() implies #[trigger] u[i].group == g.cells[i].group by {}
    lemma_distinct_same_groups(resize_spec(g, idx, new_w, new_h, cols), g);
}

/// Whether a drag source is sound: a torn tab is still listed in the strip it is torn from.
pub open spec fn source_listed(g: GridView, src: DragSourceView) -> bool {
    match src {
        DragSourceView::Tab { panel, from } => match locate(g.cells, from) {
            Some(i) => g.cells[i].group.tabs.contains(panel),
            None => false,
        },
        DragSourceView::Tile(_) => true,
    }
}

/// What a drag takes out of a distinct grid: the tiles left keep distinct ids below the next to
/// mint, the moving group's id is among none of them and below the next to mint, and the panels
/// left plus the moving ones are exactly the panels there were.
pub proof fn lemma_detach_distinct(g: GridView, src: DragSourceView)
    requires
        distinct(g),
        locate(g.cells, source_group(src)) is Some,
        source_listed(g, src),
        src is Tab ==> g.next_group_id < u64::MAX,
    ensures
        ids_unique(detach(g, src).cells),
        ids_below(detach(g, src).cells, detach(g, src).next_group_id),
        id_count(detach(g, src).cells, detach(g, src).group.id) == 0,
        detach(g, src).group.id.0 < detach(g, src).next_group_id,
        forall|p: Seq<char>|
            #[trigger] occ_all(detach(g, src).cells, p) + occ(detach(g, src).group.tabs, p) == occ_all(g.cells, p),
{
    let cs = g.cells;
    let n = g.next_group_id;
    lemma_locate_from(cs, source_group(src), 0);
    let i = locate(cs, source_group(src)).unwrap();
    let c = cs[i];
    let d = detach(g, src);
    match src {
        DragSourceView::Tile(_) => {
            lemma_distinct_remove(cs, i, n);
            let f = |x: CellView| x.group.id == c.group.id;
            lemma_count_remove(cs, i, f);
            assert(id_count(cs, c.group.id) <= 1);
        },
        DragSourceView::Tab { panel, .. } => {
            let rest = group_without(c.group, panel);
            lemma_occ_without(c.group, panel, panel);
            let one = seq![panel];
            assert forall|p: Seq<char>| #[trigger] occ(one, p) == if p == panel {
                1nat
            } else {
                0nat
            } by {
                assert(one.drop_last() =~= Seq::<Seq<char>>::empty());
                assert(occ(one.drop_last(), p) == 0);
                assert(one.last() == panel);
            }
            if rest.tabs.len() == 0 {
                lemma_distinct_remove(cs, i, n);
                assert forall|p: Seq<char>| #[trigger] occ_all(d.cells, p) + occ(d.group.tabs, p) == occ_all(cs, p) by {
                    lemma_occ_without(c.group, panel, p);
                    assert(occ(rest.tabs, p) == 0);
                }
            } else {
                let nc = CellView { group: rest, ..c };
                lemma_distinct_regroup(cs, i, nc, n);
                assert forall|p: Seq<char>| #[trigger] occ_all(d.cells, p) + occ(d.group.tabs, p) == occ_all(cs, p) by {
                    lemma_occ_without(c.group, panel, p);
                }
            }
            assert forall|j: int| 0 <= j < d.cells.len() implies (#[trigger] d.cells[j]).group.id.0 < n + 1 by {
                assert(d.cells[j].group.id.0 < n);
            }
            lemma_count_none(d.cells, |x: CellView| x.group.id == GroupId(n));
        },
    }
}

/// A drop keeps a distinct grid distinct, as long as a torn tab is still listed in its strip.
pub proof fn lemma_drop_distinct(g: GridView, src: DragSourceView, t: DropTarget, cols: u32)
    requires
        distinct(g),
        drop_ok(g, src, t),
        source_listed(g, src),
        t is Tab ==> detach(g, src).cells.len() <= usize::MAX,
        !(t is Tab) ==> detach(g, src).cells.len() + 1 <= usize::MAX,
    ensures
        distinct(drop_spec(g, src, t, cols)),
{
    if !drop_is_noop(g, src, t) {
        lemma_detach(g, src, t);
        lemma_detach_distinct(g, src);
        let d = detach(g, src);
        let out = drop_spec(g, src, t, cols);
        match t {
            DropTarget::Tab { group, index } => {
                lemma_locate_from(d.cells, group, 0);
                let k = locate(d.cells, group).unwrap();
                let dst = d.cells[k];
                let at = min_int(index as int, dst.group.tabs.len() as int);
                let nc = CellView { group: insert_tabs(dst.group, d.group.tabs, at), ..dst };
                lemma_distinct_regroup(d.cells, k, nc, d.next_group_id);
                let y = d.cells.update(k, nc);
                assert forall|p: Seq<char>| #[trigger] occ_all(y, p) <= 1 by {
                    let a = dst.group.tabs.take(at);
                    let b = dst.group.tabs.skip(at);
                    assert(dst.group.tabs =~= a + b);
                    lemma_occ_add(a, b, p);
                    lemma_occ_add(a, d.group.tabs, p);
                    lemma_occ_add(a + d.group.tabs, b, p);
                    assert(occ_all(g.cells, p) <= 1);
                }
                lemma_total_h_update(d.cells, k, nc);
                lemma_groups_gravity(y, None);
                lemma_distinct_same_groups(out, GridView { cells: y, ..out });
            },
            DropTarget::Displace { x, y } => {
                let c = landed(d, clamp_x(x, cols, d.w), y);
                lemma_drop_push_distinct(d.cells, c, d.next_group_id, g.cells);
                lemma_total_h_push(d.cells, c);
                lemma_groups_gravity(d.cells.push(c), Some(d.cells.len() as usize));
                lemma_distinct_same_groups(out, GridView { cells: d.cells.push(c), ..out });
            },
            DropTarget::Pack { x } => {
                let x2 = clamp_x(x, cols, d.w);
                let c = landed(d, x2, rest_height(d.cells, x2 as int, d.w as int) as u32);
                lemma_drop_push_distinct(d.cells, c, d.next_group_id, g.cells);
                lemma_total_h_push(d.cells, c);
                lemma_groups_gravity(d.cells.push(c), None);
                lemma_distinct_same_groups(out, GridView { cells: d.cells.push(c), ..out });
            },
        }
    }
}

/// Re-homing the moving group as a new tile keeps the identities distinct.
proof fn lemma_drop_push_distinct(cs: Seq<CellView>, c: CellView, n: u64, before: Seq<CellView>)
    requires
        ids_unique(cs),
        ids_below(cs, n),
        id_count(cs, c.group.id) == 0,
        c.group.id.0 < n,
        panels_unique(before),
        forall|p: Seq<char>| #[trigger] occ_all(cs, p) + occ(c.group.tabs, p) == occ_all(before, p),
    ensures
        ids_unique(cs.push(c)),
        ids_below(cs.push(c), n),
        panels_unique(cs.push(c)),
{
    let x = cs.push(c);
    assert forall|id: GroupId| #[trigger] id_count(x, id) <= 1 by {
        lemma_count_push(cs, c, |y: CellView| y.group.id == id);
        assert(id_count(cs, id) <= 1);
    }
    assert forall|i: int| 0 <= i < x.len() implies (#[trigger] x[i]).group.id.0 < n by {
        if i < cs.len() {
            assert(x[i] == cs[i]);
        }
    }
    assert forall|p: Seq<char>| #[trigger] occ_all(x, p) <= 1 by {
        lemma_occ_all_push(cs, c, p);
        assert(occ_all(before, p) <= 1);
    }
}

/// What a drag takes out of a grid, put together with the panels it moves, is every panel the grid
/// had, each as often, as long as a torn tab is still listed in its strip.
pub proof fn lemma_detach_panels(g: GridView, src: DragSourceView)
    requires
        locate(g.cells, source_group(src)) is Some,
        source_listed(g, src),
    ensures
        forall|p: Seq<char>|
            #[trigger] occ_all(detach(g, src).cells, p) + occ(detach(g, src).group.tabs, p) == occ_all(g.cells, p),
{
    let cs = g.cells;
    lemma_locate_from(cs, source_group(src), 0);
    let i = locate(cs, source_group(src)).unwrap();
    let c = cs[i];
    let d = detach(g, src);
    match src {
        DragSourceView::Tile(_) => {
            assert forall|p: Seq<char>| #[trigger] occ_all(d.cells, p) + occ(d.group.tabs, p) == occ_all(cs, p) by {
                lemma_occ_all_remove(cs, i, p);
            }
        },
        DragSourceView::Tab { panel, .. } => {
            let rest = group_without(c.group, panel);
            let one = seq![panel];
            assert forall|p: Seq<char>| #[trigger] occ_all(d.cells, p) + occ(d.group.tabs, p) == occ_all(cs, p) by {
                assert(one.drop_last() =~= Seq::<Seq<char>>::empty());
                assert(occ(one.drop_last(), p) == 0);
                assert(one.last() == panel);
                lemma_occ_without(c.group, panel, p);
                if rest.tabs.len() == 0 {
                    lemma_occ_all_remove(cs, i, p);
                    assert(occ(rest.tabs, p) == 0);
                } else {
                    lemma_occ_all_update(cs, i, CellView { group: rest, ..c }, p);
                }
            }
        },
    }
}

/// A drop neither creates nor loses a panel: every panel occurs in the grid after it exactly as
/// often as before, as long as a torn tab is still listed in its strip.
pub proof fn law_drop_keeps_panels(g: GridView, src: DragSourceView, t: DropTarget, cols: u32)
    requires
        drop_ok(g, src, t),
        source_listed(g, src),
        t is Tab ==> detach(g, src).cells.len() <= usize::MAX,
        !(t is Tab) ==> detach(g, src).cells.len() + 1 <= usize::MAX,
    ensures
        forall|p: Seq<char>| #[trigger] occ_all(drop_spec(g, src, t, cols).cells, p) == occ_all(g.cells, p),
{
    if !drop_is_noop(g, src, t) {
        lemma_detach(g, src, t);
        lemma_detach_panels(g, src);
        let d = detach(g, src);
        let out = drop_spec(g, src, t, cols).cells;
        let y = match t {
            DropTarget::Tab { group, index } => {
                let k = locate(d.cells, group).unwrap();
                let dst = d.cells[k];
                let at = min_int(index as int, dst.group.tabs.len() as int);
                d.cells.update(k, CellView { group: insert_tabs(dst.group, d.group.tabs, at), ..dst })
            },
            DropTarget::Displace { x, y } => d.cells.push(landed(d, clamp_x(x, cols, d.w), y)),
            DropTarget::Pack { x } => {
                let x2 = clamp_x(x, cols, d.w);
                d.cells.push(landed(d, x2, rest_height(d.cells, x2 as int, d.w as int) as u32))
            },
        };
        let pin = match t {
            DropTarget::Displace { .. } => Some(d.cells.len() as usize),
            _ => None,
        };
        match t {
            DropTarget::Tab { group, index } => {
                lemma_locate_from(d.cells, group, 0);
                let k = locate(d.cells, group).unwrap();
                let dst = d.cells[k];
                let at = min_int(index as int, dst.group.tabs.len() as int);
                let nc = CellView { group: insert_tabs(dst.group, d.group.tabs, at), ..dst };
                lemma_total_h_update(d.cells, k, nc);
                assert forall|p: Seq<char>| #[trigger] occ_all(y, p) == occ_all(g.cells, p) by {
                    let a = dst.group.tabs.take(at);
                    let b = dst.group.tabs.skip(at);
                    assert(dst.group.tabs =~= a + b);
                    lemma_occ_add(a, b, p);
                    lemma_occ_add(a, d.group.tabs, p);
                    lemma_occ_add(a + d.group.tabs, b, p);
                    lemma_occ_all_update(d.cells, k, nc, p);
                }
            },
            _ => {
                let c = y[d.cells.len() as int];
                assert(y == d.cells.push(c));
                lemma_total_h_push(d.cells, c);
                assert forall|p: Seq<char>| #[trigger] occ_all(y, p) == occ_all(g.cells, p) by {
                    lemma_occ_all_push(d.cells, c, p);
                }
            },
        }
        lemma_groups_gravity(y, pin);
        assert(out == reranked(gravity_spec(y, pin)));
        assert forall|p: Seq<char>| #[trigger] occ_all(out, p) == occ_all(g.cells, p) by {
            assert forall|i: int| 0 <= i < out.len() implies #[trigger] out[i].group.tabs == y[i].group.tabs by {}
            lemma_occ_all_same(out, y, p);
        }
    }
}

/// Taking a tile out keeps group ids unique and below `n`.
pub proof fn lemma_ids_remove(cs: Seq<CellView>, i: int, n: u64)
    requires
        ids_unique(cs),
        ids_below(cs, n),
        0 <= i < cs.len(),
    ensures
        ids_unique(cs.remove(i)),
        ids_below(cs.remove(i), n),
        id_count(cs.remove(i), cs[i].group.id) == 0,
{
    let r = cs.remove(i);
    assert forall|id: GroupId| #[trigger] id_count(r, id) <= 1 by {
        lemma_count_remove(cs, i, |c: CellView| c.group.id == id);
        assert(id_count(cs, id) <= 1);
    }
    lemma_count_remove(cs, i, |c: CellView| c.group.id == cs[i].group.id);
    assert(id_count(cs, cs[i].group.id) <= 1);
    assert forall|j: int| 0 <= j < r.len() implies (#[trigger] r[j]).group.id.0 < n by {
        if j < i {
            assert(r[j] == cs[j]);
        } else {
            assert(r[j] == cs[j + 1]);
        }
    }
}

/// Grids carrying the same group ids, index by index, agree on their ids being unique and below
/// `n`.
pub proof fn lemma_ids_same(a: Seq<CellView>, b: Seq<CellView>, n: u64)
    requires
        a.len() == b.len(),
        forall|i: int| 0 <= i < a.len() ==> #[trigger] a[i].group.id == b[i].group.id,
        ids_unique(b),
        ids_below(b, n),
    ensures
        ids_unique(a),
        ids_below(a, n),
{
    assert forall|id: GroupId| #[trigger] id_count(a, id) <= 1 by {
        let f = |c: CellView| c.group.id == id;
        assert forall|i: int| 0 <= i < a.len() implies f(#[trigger] a[i]) == f(b[i]) by {
            assert(a[i].group.id == b[i].group.id);
        }
        lemma_count_same(a, b, f, f);
        assert(id_count(b, id) <= 1);
    }
    assert forall|i: int| 0 <= i < a.len() implies (#[trigger] a[i]).group.id.0 < n by {
        assert(a[i].group.id == b[i].group.id);
        assert(b[i].group.id.0 < n);
    }
}

/// What a drag takes out of a grid with unique ids below the next to mint leaves the rest so, and
/// the moving group's id is among none of them and below the next to mint, whatever the panels.
pub proof fn lemma_detach_ids(g: GridView, src: DragSourceView)
    requires
        ids_unique(g.cells),
        ids_below(g.cells, g.next_group_id),
        locate(g.cells, source_group(src)) is Some,
        src is Tab ==> g.next_group_id < u64::MAX,
    ensures
        ids_unique(detach(g, src).cells),
        ids_below(detach(g, src).cells, detach(g, src).next_group_id),
        id_count(detach(g, src).cells, detach(g, src).group.id) == 0,
        detach(g, src).group.id.0 < detach(g, src).next_group_id,
{
    let cs = g.cells;
    let n = g.next_group_id;
    lemma_locate_from(cs, source_group(src), 0);
    let i = locate(cs, source_group(src)).unwrap();
    let c = cs[i];
    let d = detach(g, src);
    match src {
        DragSourceView::Tile(_) => {
            lemma_ids_remove(cs, i, n);
        },
        DragSourceView::Tab { panel, .. } => {
            let rest = group_without(c.group, panel);
            lemma_first_pos_from(c.group.tabs, panel, 0);
            if rest.tabs.len() == 0 {
                lemma_ids_remove(cs, i, n);
            } else {
                let nc = CellView { group: rest, ..c };
                lemma_distinct_regroup(cs, i, nc, n);
            }
            assert forall|j: int| 0 <= j < d.cells.len() implies (#[trigger] d.cells[j]).group.id.0 < n + 1 by {
                assert(d.cells[j].group.id.0 < n);
            }
            lemma_count_none(d.cells, |x: CellView| x.group.id == GroupId(n));
        },
    }
}

/// A drop keeps group ids unique and below the next to mint, whatever the panels: a torn tab
/// always takes a freshly minted id.
pub proof fn lemma_drop_ids(g: GridView, src: DragSourceView, t: DropTarget, cols: u32)
    requires
        ids_unique(g.cells),
        ids_below(g.cells, g.next_group_id),
        drop_ok(g, src, t),
        t is Tab ==> detach(g, src).cells.len() <= usize::MAX,
        !(t is Tab) ==> detach(g, src).cells.len() + 1 <= usize::MAX,
    ensures
        ids_unique(drop_spec(g, src, t, cols).cells),
        ids_below(drop_spec(g, src, t, cols).cells, drop_spec(g, src, t, cols).next_group_id),
{
    if !drop_is_noop(g, src, t) {
        lemma_detach(g, src, t);
        lemma_detach_ids(g, src);
        let d = detach(g, src);
        let out = drop_spec(g, src, t, cols);
        let n = d.next_group_id;
        match t {
            DropTarget::Tab { group, index } => {
                lemma_locate_from(d.cells, group, 0);
                let k = locate(d.cells, group).unwrap();
                let dst = d.cells[k];
                let at = min_int(index as int, dst.group.tabs.len() as int);
                let nc = CellView { group: insert_tabs(dst.group, d.group.tabs, at), ..dst };
                lemma_distinct_regroup(d.cells, k, nc, n);
                let y = d.cells.update(k, nc);
                lemma_total_h_update(d.cells, k, nc);
                lemma_groups_gravity(y, None);
                lemma_ids_same(out.cells, y, n);
            },
            _ => {
                let c = match t {
                    DropTarget::Displace { x, y } => landed(d, clamp_x(x, cols, d.w), y),
                    _ => {
                        let x2 = clamp_x(t->Pack_x, cols, d.w);
                        landed(d, x2, rest_height(d.cells, x2 as int, d.w as int) as u32)
                    },
                };
                let pin = match t {
                    DropTarget::Displace { .. } => Some(d.cells.len() as usize),
                    _ => None,
                };
                let y = d.cells.push(c);
                assert forall|id: GroupId| #[trigger] id_count(y, id) <= 1 by {
                    lemma_count_push(d.cells, c, |z: CellView| z.group.id == id);
                    assert(id_count(d.cells, id) <= 1);
                }
                assert forall|i: int| 0 <= i < y.len() implies (#[trigger] y[i]).group.id.0 < n by {
                    if i < d.cells.len() {
                        assert(y[i] == d.cells[i]);
                    }
                }
                lemma_total_h_push(d.cells, c);
                lemma_groups_gravity(y, pin);
                lemma_ids_same(out.cells, y, n);
            },
        }
    }
}

} // verus!
