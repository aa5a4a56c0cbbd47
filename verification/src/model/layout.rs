//! Geometry of the packed grid as mathematics: column/rect overlap, the skyline a tile rests on,
//! the stable index sort that orders a settle, and the settle itself (every tile drops onto the
//! tiles processed before it). The executable helpers here compute exactly these functions.

use vstd::prelude::*;

use crate::model::packed::{Cell, CellView, cell_views};

verus! {

// ------------------------------------------------------------------ geometry

/// Two tiles share at least one column.
pub open spec fn cols_meet(a: CellView, b: CellView) -> bool {
    a.x < b.x + b.w && b.x < a.x + a.w
}

/// Two tiles' rectangles intersect.
pub open spec fn rects_meet(a: CellView, b: CellView) -> bool {
    &&& cols_meet(a, b)
    &&& a.y < b.y + b.h
    &&& b.y < a.y + a.h
}

/// A tile spans some column of `[x, x + w)`.
pub open spec fn in_span(c: CellView, x: int, w: int) -> bool {
    c.x < x + w && x < c.x + c.w
}

/// Rest height of a `w`-wide tile with left edge `x`: the lowest bottom edge among the tiles
/// spanning its columns, else 0.
pub open spec fn rest_height(cs: Seq<CellView>, x: int, w: int) -> int
    decreases cs.len(),
{
    if cs.len() == 0 {
        0
    } else {
        let r = rest_height(cs.drop_last(), x, w);
        let c = cs.last();
        if in_span(c, x, w) && c.y + c.h > r {
            c.y + c.h
        } else {
            r
        }
    }
}

/// The lowest bottom edge of any tile, else 0.
pub open spec fn max_bottom(cs: Seq<CellView>) -> int
    decreases cs.len(),
{
    if cs.len() == 0 {
        0
    } else {
        let r = max_bottom(cs.drop_last());
        let c = cs.last();
        if c.y + c.h > r {
            c.y + c.h
        } else {
            r
        }
    }
}

/// Sum of all tile heights: the tallest a settled stack can reach.
pub open spec fn total_h(cs: Seq<CellView>) -> int
    decreases cs.len(),
{
    if cs.len() == 0 {
        0
    } else {
        total_h(cs.drop_last()) + cs.last().h
    }
}

/// No two tiles overlap.
pub open spec fn no_overlap(cs: Seq<CellView>) -> bool {
    forall|i: int, j: int| 0 <= i < j < cs.len() ==> !rects_meet(#[trigger] cs[i], #[trigger] cs[j])
}

/// Tile `i` rests on a tile `j`: they share a column and `j`'s bottom edge touches `i`'s top.
pub open spec fn rests_on(cs: Seq<CellView>, i: int, j: int) -> bool {
    &&& 0 <= j < cs.len()
    &&& j != i
    &&& cols_meet(cs[j], cs[i])
    &&& cs[j].y + cs[j].h == cs[i].y
}

/// No tile floats: each is at the top or rests on another tile.
pub open spec fn supported(cs: Seq<CellView>) -> bool {
    forall|i: int| 0 <= i < cs.len() && #[trigger] cs[i].y > 0 ==> exists|j: int| rests_on(cs, i, j)
}

/// The settled-grid invariant: overlap-free and gap-free.
pub open spec fn packed(cs: Seq<CellView>) -> bool {
    no_overlap(cs) && supported(cs)
}

/// Every tile's right edge and bottom edge fit the integer width used to store them.
pub open spec fn edges_fit(cs: Seq<CellView>) -> bool {
    forall|i: int| #![trigger cs[i]] 0 <= i < cs.len() ==> cs[i].x + cs[i].w <= u32::MAX && cs[i].y + cs[i].h <= u32::MAX
}

/// The grid's integer bounds: every edge fits, the total height fits, and no tile reaches below
/// the total height (as after any settle).
pub open spec fn bounded(cs: Seq<CellView>) -> bool {
    &&& edges_fit(cs)
    &&& total_h(cs) <= u32::MAX
    &&& forall|i: int| #![trigger cs[i]] 0 <= i < cs.len() ==> cs[i].y + cs[i].h <= total_h(cs)
}

/// The geometric fields of two tiles agree, except possibly their row `y`.
pub open spec fn same_but_y(a: CellView, b: CellView) -> bool {
    a == CellView { y: a.y, ..b }
}

// ------------------------------------------------------------------ stable index sort

/// Strict order of indices by `(key, index)`: a stable sort puts `a` before `b` exactly then.
pub open spec fn key_lt(keys: Seq<(u64, u64)>, a: usize, b: usize) -> bool {
    let (ka, kb) = (keys[a as int], keys[b as int]);
    ka.0 < kb.0 || (ka.0 == kb.0 && (ka.1 < kb.1 || (ka.1 == kb.1 && a < b)))
}

/// Insert `v` into `o`, walking left from the end past every entry it sorts before.
pub open spec fn insert_sorted(o: Seq<usize>, v: usize, keys: Seq<(u64, u64)>) -> Seq<usize>
    decreases o.len(),
{
    if o.len() == 0 || !key_lt(keys, v, o.last()) {
        o.push(v)
    } else {
        insert_sorted(o.drop_last(), v, keys).push(o.last())
    }
}

/// The indices `0..n`, stably sorted by `keys`.
pub open spec fn sort_prefix(keys: Seq<(u64, u64)>, n: int) -> Seq<usize>
    decreases n,
{
    if n <= 0 {
        seq![]
    } else {
        insert_sorted(sort_prefix(keys, n - 1), (n - 1) as usize, keys)
    }
}

/// The indices of `keys`, stably sorted by key (ties keep index order).
pub open spec fn sorted_order(keys: Seq<(u64, u64)>) -> Seq<usize> {
    sort_prefix(keys, keys.len() as int)
}

/// `o` lists each index `0..n` exactly once.
pub open spec fn is_perm(o: Seq<usize>, n: int) -> bool {
    &&& o.len() == n
    &&& o.no_duplicates()
    &&& forall|k: int| 0 <= k < o.len() ==> #[trigger] o[k] < n
    &&& forall|i: usize| i < n ==> #[trigger] o.contains(i)
}

/// Inserting into the sort order adds exactly the new index, and keeps the entries distinct.
pub proof fn lemma_insert_sorted(o: Seq<usize>, v: usize, keys: Seq<(u64, u64)>)
    ensures
        insert_sorted(o, v, keys).len() == o.len() + 1,
        forall|x: usize| #[trigger] insert_sorted(o, v, keys).contains(x) <==> (o.contains(x) || x == v),
        o.no_duplicates() && !o.contains(v) ==> insert_sorted(o, v, keys).no_duplicates(),
    decreases o.len(),
{
    let r = insert_sorted(o, v, keys);
    if o.len() == 0 || !key_lt(keys, v, o.last()) {
        assert forall|x: usize| r.contains(x) <==> (o.contains(x) || x == v) by {
            if o.contains(x) {
                let k = choose|k: int| 0 <= k < o.len() && o[k] == x;
                assert(r[k] == x);
            }
            if x == v {
                assert(r[o.len() as int] == x);
            }
        }
    } else {
        let p = o.drop_last();
        let l = o.last();
        lemma_insert_sorted(p, v, keys);
        let q = insert_sorted(p, v, keys);
        assert(r == q.push(l));
        assert forall|x: usize| r.contains(x) <==> (o.contains(x) || x == v) by {
            if r.contains(x) {
                let k = choose|k: int| 0 <= k < r.len() && r[k] == x;
                if k < q.len() {
                    assert(q[k] == x);
                    assert(q.contains(x));
                    if p.contains(x) {
                        let k2 = choose|k2: int| 0 <= k2 < p.len() && p[k2] == x;
                        assert(o[k2] == x);
                    }
                } else {
                    assert(o[o.len() - 1] == x);
                }
            }
            if o.contains(x) {
                let k = choose|k: int| 0 <= k < o.len() && o[k] == x;
                if k < p.len() {
                    assert(p[k] == x);
                    assert(p.contains(x));
                    assert(q.contains(x));
                    let k2 = choose|k2: int| 0 <= k2 < q.len() && q[k2] == x;
                    assert(r[k2] == x);
                } else {
                    assert(r[q.len() as int] == x);
                }
            }
            if x == v {
                assert(q.contains(x));
                let k2 = choose|k2: int| 0 <= k2 < q.len() && q[k2] == x;
                assert(r[k2] == x);
            }
        }
        if o.no_duplicates() && !o.contains(v) {
            assert(!p.contains(v)) by {
                if p.contains(v) {
                    let k = choose|k: int| 0 <= k < p.len() && p[k] == v;
                    assert(o[k] == v);
                }
            }
            assert(p.no_duplicates()) by {
                assert forall|a: int, b: int| 0 <= a < p.len() && 0 <= b < p.len() && a != b implies p[a]
                    != p[b] by {
                    assert(o[a] == p[a] && o[b] == p[b]);
                }
            }
            assert(!q.contains(l)) by {
                if q.contains(l) {
                    if p.contains(l) {
                        let k = choose|k: int| 0 <= k < p.len() && p[k] == l;
                        assert(o[k] == l && o[o.len() - 1] == l);
                    } else {
                        assert(l == v);
                        assert(o[o.len() - 1] == v);
                    }
                }
            }
            assert forall|a: int, b: int| 0 <= a < r.len() && 0 <= b < r.len() && a != b implies r[a]
                != r[b] by {
                if a < q.len() && b < q.len() {
                } else if a < q.len() {
                    assert(q.contains(r[a]));
                } else if b < q.len() {
                    assert(q.contains(r[b]));
                }
            }
        }
    }
}

/// The stable sort of `0..n` is a permutation of `0..n`.
pub proof fn lemma_sort_prefix_perm(keys: Seq<(u64, u64)>, n: int)
    requires
        0 <= n <= usize::MAX,
    ensures
        is_perm(sort_prefix(keys, n), n),
    decreases n,
{
    if n > 0 {
        let p = sort_prefix(keys, n - 1);
        lemma_sort_prefix_perm(keys, n - 1);
        let v = (n - 1) as usize;
        assert(!p.contains(v)) by {
            if p.contains(v) {
                let k = choose|k: int| 0 <= k < p.len() && p[k] == v;
                assert(p[k] < n - 1);
            }
        }
        lemma_insert_sorted(p, v, keys);
        let r = sort_prefix(keys, n);
        assert forall|k: int| 0 <= k < r.len() implies #[trigger] r[k] < n by {
            assert(r.contains(r[k]));
            if p.contains(r[k]) {
                let k2 = choose|k2: int| 0 <= k2 < p.len() && p[k2] == r[k];
            }
        }
        assert forall|i: usize| i < n implies #[trigger] r.contains(i) by {
            if i < n - 1 {
                assert(p.contains(i));
            }
        }
    }
}

fn key_less(keys: &Vec<(u64, u64)>, a: usize, b: usize) -> (r: bool)
    requires
        a < keys@.len(),
        b < keys@.len(),
    ensures
        r == key_lt(keys@, a, b),
{
    let (ka, kb) = (keys[a], keys[b]);
    ka.0 < kb.0 || (ka.0 == kb.0 && (ka.1 < kb.1 || (ka.1 == kb.1 && a < b)))
}

/// Stable sort of the indices of `keys` by key (ties keep index order): an insertion sort that
/// computes exactly [`sorted_order`].
pub fn sort_indices(keys: &Vec<(u64, u64)>) -> (order: Vec<usize>)
    ensures
        order@ == sorted_order(keys@),
        is_perm(order@, keys@.len() as int),
{
    let n = keys.len();
    let mut order: Vec<usize> = Vec::new();
    let mut i: usize = 0;
    while i < n
        invariant
            i <= n,
            n == keys@.len(),
            order@ == sort_prefix(keys@, i as int),
            is_perm(order@, i as int),
        decreases n - i,
    {
        proof {
            lemma_sort_prefix_perm(keys@, i as int);
            lemma_sort_prefix_perm(keys@, i as int + 1);
        }
        let ghost s = order@;
        order.push(i);
        let mut j: usize = i;
        assert(s.take(i as int) =~= s);
        assert(s.skip(i as int) =~= Seq::<usize>::empty());
        assert(order@ =~= s.take(j as int).push(i) + s.skip(j as int));
        while j > 0 && key_less(keys, order[j], order[j - 1])
            invariant
                j <= i,
                i < n,
                n == keys@.len(),
                s == sort_prefix(keys@, i as int),
                is_perm(s, i as int),
                order@.len() == i + 1,
                order@ == s.take(j as int).push(i) + s.skip(j as int),
                insert_sorted(s, i, keys@) == insert_sorted(s.take(j as int), i, keys@) + s.skip(
                    j as int,
                ),
            decreases j,
        {
            let ghost a = s.take(j as int);
            assert(order@[j as int] == i);
            assert(order@[j - 1] == a.last());
            assert(a.drop_last() == s.take(j - 1));
            assert(s.skip(j - 1) == seq![a.last()] + s.skip(j as int));
            let prev = order[j - 1];
            let cur = order[j];
            order.set(j - 1, cur);
            order.set(j, prev);
            j = j - 1;
            assert(order@ =~= s.take(j as int).push(i) + s.skip(j as int));
            assert(insert_sorted(a, i, keys@) == insert_sorted(s.take(j as int), i, keys@).push(
                a.last(),
            ));
            assert(insert_sorted(s.take(j as int), i, keys@).push(a.last()) + s.skip(j + 1) =~= insert_sorted(
                s.take(j as int),
                i,
                keys@,
            ) + s.skip(j as int));
        }
        proof {
            let a = s.take(j as int);
            if j > 0 {
                assert(order@[j as int] == i);
                assert(order@[j - 1] == a.last());
            }
            assert(insert_sorted(a, i, keys@) == a.push(i));
            assert(order@ =~= insert_sorted(s, i, keys@));
        }
        i += 1;
    }
    order
}

// ------------------------------------------------------------------ settle

/// Lowest bottom edge, among the tiles `idxs` of `s` that share a column with `c`, else 0.
pub open spec fn top(s: Seq<CellView>, idxs: Seq<usize>, c: CellView) -> int
    decreases idxs.len(),
{
    if idxs.len() == 0 {
        0
    } else {
        let r = top(s, idxs.drop_last(), c);
        let j = idxs.last() as int;
        if cols_meet(s[j], c) && s[j].y + s[j].h > r {
            s[j].y + s[j].h
        } else {
            r
        }
    }
}

/// The grid after the first `k` tiles of `order` have each dropped onto the tiles before them.
pub open spec fn settle_steps(cs: Seq<CellView>, order: Seq<usize>, k: int) -> Seq<CellView>
    decreases k,
{
    if k <= 0 {
        cs
    } else {
        let s = settle_steps(cs, order, k - 1);
        let i = order[k - 1] as int;
        s.update(i, CellView { y: top(s, order.take(k - 1), s[i]) as u32, ..s[i] })
    }
}

/// Settle a grid in `order`: each tile, in turn, rests on the skyline of those before it.
pub open spec fn settle(cs: Seq<CellView>, order: Seq<usize>) -> Seq<CellView> {
    settle_steps(cs, order, order.len() as int)
}

/// Sum of the heights of the tiles `idxs`.
pub open spec fn sum_h_at(cs: Seq<CellView>, idxs: Seq<usize>) -> int
    decreases idxs.len(),
{
    if idxs.len() == 0 {
        0
    } else {
        sum_h_at(cs, idxs.drop_last()) + cs[idxs.last() as int].h
    }
}

proof fn lemma_sum_h_at_agree(a: Seq<CellView>, b: Seq<CellView>, idxs: Seq<usize>)
    requires
        forall|k: int| 0 <= k < idxs.len() ==> a[idxs[k] as int].h == b[idxs[k] as int].h,
    ensures
        sum_h_at(a, idxs) == sum_h_at(b, idxs),
    decreases idxs.len(),
{
    if idxs.len() > 0 {
        lemma_sum_h_at_agree(a, b, idxs.drop_last());
    }
}

/// Replacing one tile changes the total height by the difference of the two heights.
pub proof fn lemma_total_h_update(cs: Seq<CellView>, v: int, c: CellView)
    requires
        0 <= v < cs.len(),
    ensures
        total_h(cs.update(v, c)) == total_h(cs) - cs[v].h + c.h,
    decreases cs.len(),
{
    let u = cs.update(v, c);
    if v == cs.len() - 1 {
        assert(u.drop_last() =~= cs.drop_last());
    } else {
        lemma_total_h_update(cs.drop_last(), v, c);
        assert(u.drop_last() =~= cs.drop_last().update(v, c));
    }
}

/// A total height is never negative.
pub proof fn lemma_total_h_nonneg(cs: Seq<CellView>)
    ensures
        total_h(cs) >= 0,
    decreases cs.len(),
{
    if cs.len() > 0 {
        lemma_total_h_nonneg(cs.drop_last());
    }
}

/// Heights summed over distinct tiles never exceed the total height.
pub proof fn lemma_sum_distinct_le(cs: Seq<CellView>, idxs: Seq<usize>)
    requires
        idxs.no_duplicates(),
        forall|k: int| 0 <= k < idxs.len() ==> #[trigger] idxs[k] < cs.len(),
    ensures
        sum_h_at(cs, idxs) <= total_h(cs),
    decreases idxs.len(),
{
    lemma_total_h_nonneg(cs);
    if idxs.len() > 0 {
        let v = idxs.last() as int;
        let rest = idxs.drop_last();
        let z = cs.update(v, CellView { h: 0, ..cs[v] });
        assert(rest.no_duplicates()) by {
            assert forall|a: int, b: int| 0 <= a < rest.len() && 0 <= b < rest.len() && a != b implies rest[a]
                != rest[b] by {
                assert(idxs[a] == rest[a] && idxs[b] == rest[b]);
            }
        }
        assert forall|k: int| 0 <= k < rest.len() implies #[trigger] rest[k] < z.len() by {
            assert(idxs[k] == rest[k]);
        }
        assert forall|k: int| 0 <= k < rest.len() implies z[rest[k] as int].h == cs[rest[k] as int].h by {
            assert(idxs[k] == rest[k]);
            assert(idxs[k] != idxs[idxs.len() - 1]);
        }
        lemma_sum_h_at_agree(z, cs, rest);
        lemma_sum_distinct_le(z, rest);
        lemma_total_h_update(cs, v, CellView { h: 0, ..cs[v] });
    }
}

proof fn lemma_sum_h_at_take_mono(cs: Seq<CellView>, o: Seq<usize>, a: int, b: int)
    requires
        0 <= a <= b <= o.len(),
        forall|k: int| 0 <= k < o.len() ==> #[trigger] o[k] < cs.len(),
    ensures
        sum_h_at(cs, o.take(a)) <= sum_h_at(cs, o.take(b)),
    decreases b - a,
{
    if a < b {
        lemma_sum_h_at_take_mono(cs, o, a, b - 1);
        assert(o.take(b).drop_last() =~= o.take(b - 1));
    }
}

/// The rest height among `idxs` reaches the bottom of every listed tile sharing a column.
pub proof fn lemma_top_ge(s: Seq<CellView>, idxs: Seq<usize>, c: CellView, t: int)
    requires
        0 <= t < idxs.len(),
        cols_meet(s[idxs[t] as int], c),
    ensures
        top(s, idxs, c) >= s[idxs[t] as int].y + s[idxs[t] as int].h,
    decreases idxs.len(),
{
    if t < idxs.len() - 1 {
        lemma_top_ge(s, idxs.drop_last(), c, t);
    }
}

/// A rest height is never negative.
pub proof fn lemma_top_nonneg(s: Seq<CellView>, idxs: Seq<usize>, c: CellView)
    ensures
        top(s, idxs, c) >= 0,
    decreases idxs.len(),
{
    if idxs.len() > 0 {
        lemma_top_nonneg(s, idxs.drop_last(), c);
    }
}

proof fn lemma_top_attained(s: Seq<CellView>, idxs: Seq<usize>, c: CellView)
    requires
        top(s, idxs, c) > 0,
    ensures
        exists|t: int|
            0 <= t < idxs.len() && cols_meet(s[idxs[t] as int], c) && s[idxs[t] as int].y + s[idxs[t] as int].h
                == top(s, idxs, c),
    decreases idxs.len(),
{
    let r = top(s, idxs.drop_last(), c);
    let j = idxs.last() as int;
    if cols_meet(s[j], c) && s[j].y + s[j].h > r {
        assert(idxs[idxs.len() - 1] == j);
    } else {
        lemma_top_attained(s, idxs.drop_last(), c);
        let t = choose|t: int|
            0 <= t < idxs.drop_last().len() && cols_meet(s[idxs.drop_last()[t] as int], c)
                && s[idxs.drop_last()[t] as int].y + s[idxs.drop_last()[t] as int].h == r;
        assert(idxs[t] == idxs.drop_last()[t]);
    }
}

proof fn lemma_top_le(s: Seq<CellView>, idxs: Seq<usize>, c: CellView, bound: int)
    requires
        bound >= 0,
        forall|t: int| 0 <= t < idxs.len() ==> s[#[trigger] idxs[t] as int].y + s[idxs[t] as int].h <= bound,
    ensures
        top(s, idxs, c) <= bound,
    decreases idxs.len(),
{
    if idxs.len() > 0 {
        lemma_top_le(s, idxs.drop_last(), c, bound);
        assert(idxs[idxs.len() - 1] == idxs.last());
    }
}

proof fn lemma_top_agree(s1: Seq<CellView>, s2: Seq<CellView>, idxs: Seq<usize>, c1: CellView, c2: CellView)
    requires
        c1.x == c2.x && c1.w == c2.w,
        forall|t: int| 0 <= t < idxs.len() ==> s1[#[trigger] idxs[t] as int] == s2[idxs[t] as int],
    ensures
        top(s1, idxs, c1) == top(s2, idxs, c2),
    decreases idxs.len(),
{
    if idxs.len() > 0 {
        lemma_top_agree(s1, s2, idxs.drop_last(), c1, c2);
        assert(idxs[idxs.len() - 1] == idxs.last());
    }
}

/// Only rows move while settling.
pub open spec fn inv_shape(cs: Seq<CellView>, s: Seq<CellView>) -> bool {
    &&& s.len() == cs.len()
    &&& forall|i: int| 0 <= i < cs.len() ==> same_but_y(#[trigger] s[i], cs[i])
}

/// Each settled tile's bottom is bounded by the heights settled up to it.
pub open spec fn inv_bound(cs: Seq<CellView>, o: Seq<usize>, s: Seq<CellView>, k: int) -> bool {
    forall|m: int|
        0 <= m < k ==> s[#[trigger] o[m] as int].y + cs[o[m] as int].h <= sum_h_at(cs, o.take(m + 1))
}

/// A settled tile lies below every earlier settled tile it shares a column with.
pub open spec fn inv_below(cs: Seq<CellView>, o: Seq<usize>, s: Seq<CellView>, k: int) -> bool {
    forall|m1: int, m2: int|
        0 <= m1 < m2 < k && cols_meet(cs[#[trigger] o[m1] as int], cs[#[trigger] o[m2] as int])
            ==> s[o[m2] as int].y >= s[o[m1] as int].y + cs[o[m1] as int].h
}

/// A settled tile off the top rests on an earlier settled tile.
pub open spec fn inv_rest(cs: Seq<CellView>, o: Seq<usize>, s: Seq<CellView>, k: int) -> bool {
    forall|m: int|
        0 <= m < k && s[#[trigger] o[m] as int].y > 0 ==> exists|m2: int|
            0 <= m2 < m && cols_meet(cs[#[trigger] o[m2] as int], cs[o[m] as int]) && s[o[m2] as int].y
                + cs[o[m2] as int].h == s[o[m] as int].y
}

proof fn lemma_perm_take(o: Seq<usize>, n: int, k: int)
    requires
        is_perm(o, n),
        0 <= k <= o.len(),
    ensures
        o.take(k).no_duplicates(),
        forall|q: int| 0 <= q < k ==> #[trigger] o.take(k)[q] < n,
{
    let pre = o.take(k);
    assert forall|a: int, b: int| 0 <= a < pre.len() && 0 <= b < pre.len() && a != b implies pre[a] != pre[b] by {
        assert(pre[a] == o[a] && pre[b] == o[b]);
    }
    assert forall|q: int| 0 <= q < k implies #[trigger] pre[q] < n by {
        assert(pre[q] == o[q]);
    }
}

/// The row a tile settles to lies within the total height.
proof fn lemma_step_row(cs: Seq<CellView>, o: Seq<usize>, k: int)
    requires
        is_perm(o, cs.len() as int),
        0 < k <= o.len(),
        inv_shape(cs, settle_steps(cs, o, k - 1)),
        inv_bound(cs, o, settle_steps(cs, o, k - 1), k - 1),
        total_h(cs) <= u32::MAX,
    ensures
        0 <= top(settle_steps(cs, o, k - 1), o.take(k - 1), settle_steps(cs, o, k - 1)[o[k - 1] as int]),
        top(settle_steps(cs, o, k - 1), o.take(k - 1), settle_steps(cs, o, k - 1)[o[k - 1] as int])
            + cs[o[k - 1] as int].h <= sum_h_at(cs, o.take(k)),
        sum_h_at(cs, o.take(k)) <= total_h(cs),
{
    let s = settle_steps(cs, o, k - 1);
    let i = o[k - 1] as int;
    let pre = o.take(k - 1);
    assert forall|t2: int| 0 <= t2 < pre.len() implies s[#[trigger] pre[t2] as int].y + s[pre[t2] as int].h
        <= sum_h_at(cs, o.take(k - 1)) by {
        assert(pre[t2] == o[t2]);
        lemma_sum_h_at_take_mono(cs, o, t2 + 1, k - 1);
        assert(same_but_y(s[o[t2] as int], cs[o[t2] as int]));
    }
    lemma_top_nonneg(s, pre, s[i]);
    lemma_sum_h_at_take_mono(cs, o, 0, k - 1);
    lemma_top_le(s, pre, s[i], sum_h_at(cs, o.take(k - 1)));
    assert(o.take(k).drop_last() =~= o.take(k - 1));
    assert(o.take(k).last() == o[k - 1]);
    lemma_perm_take(o, cs.len() as int, k);
    lemma_sum_distinct_le(cs, o.take(k));
}

proof fn lemma_step_below(cs: Seq<CellView>, o: Seq<usize>, k: int)
    requires
        is_perm(o, cs.len() as int),
        0 < k <= o.len(),
        inv_shape(cs, settle_steps(cs, o, k - 1)),
        inv_below(cs, o, settle_steps(cs, o, k - 1), k - 1),
        0 <= top(settle_steps(cs, o, k - 1), o.take(k - 1), settle_steps(cs, o, k - 1)[o[k - 1] as int])
            <= u32::MAX,
    ensures
        inv_below(cs, o, settle_steps(cs, o, k), k),
{
    let s = settle_steps(cs, o, k - 1);
    let i = o[k - 1] as int;
    let pre = o.take(k - 1);
    let s2 = settle_steps(cs, o, k);
    assert forall|m1: int, m2: int|
        0 <= m1 < m2 < k && cols_meet(cs[#[trigger] o[m1] as int], cs[#[trigger] o[m2] as int]) implies s2[o[m2] as int].y
        >= s2[o[m1] as int].y + cs[o[m1] as int].h by {
        assert(o[m1] != o[k - 1]);
        assert(s2[o[m1] as int] == s[o[m1] as int]);
        if m2 == k - 1 {
            assert(pre[m1] == o[m1]);
            assert(same_but_y(s[o[m1] as int], cs[o[m1] as int]));
            assert(same_but_y(s[i], cs[i]));
            lemma_top_ge(s, pre, s[i], m1);
        } else {
            assert(o[m2] != o[k - 1]);
            assert(s2[o[m2] as int] == s[o[m2] as int]);
        }
    }
}

proof fn lemma_step_rest(cs: Seq<CellView>, o: Seq<usize>, k: int)
    requires
        is_perm(o, cs.len() as int),
        0 < k <= o.len(),
        inv_shape(cs, settle_steps(cs, o, k - 1)),
        inv_rest(cs, o, settle_steps(cs, o, k - 1), k - 1),
        0 <= top(settle_steps(cs, o, k - 1), o.take(k - 1), settle_steps(cs, o, k - 1)[o[k - 1] as int])
            <= u32::MAX,
    ensures
        inv_rest(cs, o, settle_steps(cs, o, k), k),
{
    let s = settle_steps(cs, o, k - 1);
    let i = o[k - 1] as int;
    let pre = o.take(k - 1);
    let t = top(s, pre, s[i]);
    let s2 = settle_steps(cs, o, k);
    assert forall|m: int| 0 <= m < k && s2[#[trigger] o[m] as int].y > 0 implies exists|m2: int|
        0 <= m2 < m && cols_meet(cs[#[trigger] o[m2] as int], cs[o[m] as int]) && s2[o[m2] as int].y
            + cs[o[m2] as int].h == s2[o[m] as int].y by {
        if m < k - 1 {
            assert(o[m] != o[k - 1]);
            assert(s2[o[m] as int] == s[o[m] as int]);
            let m2 = choose|m2: int|
                0 <= m2 < m && cols_meet(cs[#[trigger] o[m2] as int], cs[o[m] as int]) && s[o[m2] as int].y
                    + cs[o[m2] as int].h == s[o[m] as int].y;
            assert(o[m2] != o[k - 1]);
            assert(s2[o[m2] as int] == s[o[m2] as int]);
        } else {
            lemma_top_attained(s, pre, s[i]);
            let q = choose|q: int|
                0 <= q < pre.len() && cols_meet(s[pre[q] as int], s[i]) && s[pre[q] as int].y + s[pre[q] as int].h
                    == t;
            assert(pre[q] == o[q]);
            assert(o[q] != o[k - 1]);
            assert(same_but_y(s[o[q] as int], cs[o[q] as int]));
            assert(same_but_y(s[i], cs[i]));
            assert(s2[o[q] as int] == s[o[q] as int]);
            assert(cols_meet(cs[o[q] as int], cs[o[m] as int]));
        }
    }
}

/// What holds after the first `k` tiles of a permutation have settled.
proof fn lemma_settle_steps(cs: Seq<CellView>, o: Seq<usize>, k: int)
    requires
        is_perm(o, cs.len() as int),
        0 <= k <= o.len(),
        total_h(cs) <= u32::MAX,
    ensures
        inv_shape(cs, settle_steps(cs, o, k)),
        inv_bound(cs, o, settle_steps(cs, o, k), k),
        inv_below(cs, o, settle_steps(cs, o, k), k),
        inv_rest(cs, o, settle_steps(cs, o, k), k),
    decreases k,
{
    if k > 0 {
        lemma_settle_steps(cs, o, k - 1);
        let s = settle_steps(cs, o, k - 1);
        let s2 = settle_steps(cs, o, k);
        lemma_step_row(cs, o, k);
        let t = top(s, o.take(k - 1), s[o[k - 1] as int]);
        assert(0 <= t <= u32::MAX);
        lemma_step_below(cs, o, k);
        lemma_step_rest(cs, o, k);
        assert forall|j: int| 0 <= j < cs.len() implies same_but_y(#[trigger] s2[j], cs[j]) by {
            assert(same_but_y(s[j], cs[j]));
        }
        assert forall|m: int| 0 <= m < k implies s2[#[trigger] o[m] as int].y + cs[o[m] as int].h <= sum_h_at(
            cs,
            o.take(m + 1),
        ) by {
            if m < k - 1 {
                assert(o[m] != o[k - 1]);
                assert(s2[o[m] as int] == s[o[m] as int]);
            }
        }
    }
}

/// A settle in any permutation order moves only rows, leaves the grid packed, and keeps every
/// bottom edge within the total height.
pub proof fn lemma_settle_packed(cs: Seq<CellView>, o: Seq<usize>)
    requires
        is_perm(o, cs.len() as int),
        cs.len() <= usize::MAX,
        total_h(cs) <= u32::MAX,
    ensures
        settle(cs, o).len() == cs.len(),
        forall|i: int| 0 <= i < cs.len() ==> same_but_y(#[trigger] settle(cs, o)[i], cs[i]),
        forall|i: int| 0 <= i < cs.len() ==> #[trigger] settle(cs, o)[i].y + cs[i].h <= total_h(cs),
        packed(settle(cs, o)),
{
    let n = o.len() as int;
    lemma_settle_steps(cs, o, n);
    let s = settle(cs, o);
    assert forall|i: int| 0 <= i < cs.len() implies #[trigger] s[i].y + cs[i].h <= total_h(cs) by {
        assert(o.contains(i as usize));
        let m = choose|m: int| 0 <= m < o.len() && o[m] == i as usize;
        lemma_sum_h_at_take_mono(cs, o, m + 1, n);
        assert(o.take(n) =~= o);
        lemma_sum_distinct_le(cs, o);
    }
    assert forall|i: int, j: int| 0 <= i < j < s.len() implies !rects_meet(#[trigger] s[i], #[trigger] s[j]) by {
        assert(o.contains(i as usize));
        assert(o.contains(j as usize));
        let mi = choose|m: int| 0 <= m < o.len() && o[m] == i as usize;
        let mj = choose|m: int| 0 <= m < o.len() && o[m] == j as usize;
        assert(same_but_y(s[i], cs[i]) && same_but_y(s[j], cs[j]));
        if mi < mj {
            if cols_meet(cs[o[mi] as int], cs[o[mj] as int]) {
            }
        } else {
            if cols_meet(cs[o[mj] as int], cs[o[mi] as int]) {
            }
        }
    }
    assert forall|i: int| 0 <= i < s.len() && #[trigger] s[i].y > 0 implies exists|j: int| rests_on(s, i, j) by {
        assert(o.contains(i as usize));
        let m = choose|m: int| 0 <= m < o.len() && o[m] == i as usize;
        assert(s[o[m] as int].y > 0);
        let m2 = choose|m2: int|
            0 <= m2 < m && cols_meet(cs[#[trigger] o[m2] as int], cs[o[m] as int]) && s[o[m2] as int].y
                + cs[o[m2] as int].h == s[o[m] as int].y;
        let j = o[m2] as int;
        assert(o[m2] != o[m]);
        assert(same_but_y(s[j], cs[j]) && same_but_y(s[i], cs[i]));
        assert(rests_on(s, i, j));
    }
}

/// Every tile's right edge fits the integer width used to store it.
pub open spec fn spans_fit(cs: Seq<CellView>) -> bool {
    forall|i: int| #![trigger cs[i]] 0 <= i < cs.len() ==> cs[i].x + cs[i].w <= u32::MAX
}

/// Settle `cells` in `order`: each tile in turn drops onto the skyline of the tiles before it.
pub fn settle_cells(cells: &mut Vec<Cell>, order: &Vec<usize>)
    requires
        is_perm(order@, old(cells)@.len() as int),
        old(cells)@.len() <= usize::MAX,
        spans_fit(cell_views(old(cells)@)),
        total_h(cell_views(old(cells)@)) <= u32::MAX,
    ensures
        cell_views(final(cells)@) == settle(cell_views(old(cells)@), order@),
{
    let ghost cs = cell_views(cells@);
    let ghost o = order@;
    let n = order.len();
    let mut k: usize = 0;
    while k < n
        invariant
            k <= n,
            n == o.len(),
            o == order@,
            is_perm(o, cs.len() as int),
            cells@.len() == cs.len(),
            spans_fit(cs),
            total_h(cs) <= u32::MAX,
            cell_views(cells@) == settle_steps(cs, o, k as int),
        decreases n - k,
    {
        let ghost s = cell_views(cells@);
        proof {
            lemma_settle_steps(cs, o, k as int);
            lemma_step_row(cs, o, k as int + 1);
            assert forall|m: int| 0 <= m < k implies s[#[trigger] o[m] as int].y + s[o[m] as int].h <= u32::MAX by {
                lemma_perm_take(o, cs.len() as int, m + 1);
                lemma_sum_distinct_le(cs, o.take(m + 1));
                assert(same_but_y(s[o[m] as int], cs[o[m] as int]));
            }
            assert(same_but_y(s[o[k as int] as int], cs[o[k as int] as int]));
        }
        let i = order[k];
        let x = cells[i].x;
        let w = cells[i].w;
        let mut t: u32 = 0;
        let mut m: usize = 0;
        while m < k
            invariant
                m <= k,
                k < n,
                n == o.len(),
                o == order@,
                is_perm(o, cs.len() as int),
                cells@.len() == cs.len(),
                s == cell_views(cells@),
                i == o[k as int],
                x == s[i as int].x,
                w == s[i as int].w,
                x + w <= u32::MAX,
                forall|q: int| 0 <= q < cs.len() ==> #[trigger] s[q].x + s[q].w <= u32::MAX,
                forall|q: int| 0 <= q < k ==> s[#[trigger] o[q] as int].y + s[o[q] as int].h <= u32::MAX,
                t == top(s, o.take(m as int), s[i as int]),
            decreases k - m,
        {
            let j = order[m];
            proof {
                assert(o.take(m as int + 1).drop_last() =~= o.take(m as int));
                assert(o.take(m as int + 1).last() == o[m as int]);
                assert(s[j as int].x + s[j as int].w <= u32::MAX);
            }
            let cx = cells[j].x;
            let cw = cells[j].w;
            if cx < x + w && x < cx + cw {
                let b = cells[j].y + cells[j].h;
                if b > t {
                    t = b;
                }
            }
            m += 1;
        }
        cells[i].y = t;
        proof {
            assert(cell_views(cells@) =~= s.update(i as int, CellView { y: t, ..s[i as int] }));
        }
        k += 1;
    }
}

/// Settling depends on the rows of tiles only through the order: grids that agree on everything
/// else settle to the same grid.
pub proof fn lemma_settle_ignores_rows(a: Seq<CellView>, b: Seq<CellView>, o: Seq<usize>)
    requires
        a.len() == b.len(),
        a.len() <= usize::MAX,
        is_perm(o, a.len() as int),
        forall|i: int| 0 <= i < a.len() ==> same_but_y(#[trigger] a[i], b[i]),
    ensures
        settle(a, o) == settle(b, o),
{
    lemma_settle_rows_steps(a, b, o, o.len() as int);
    let (sa, sb) = (settle(a, o), settle(b, o));
    assert forall|i: int| 0 <= i < a.len() implies sa[i] == sb[i] by {
        assert(o.contains(i as usize));
        let m = choose|m: int| 0 <= m < o.len() && o[m] == i as usize;
        assert(sa[o[m] as int] == sb[o[m] as int]);
    }
    assert(sa =~= sb);
}

proof fn lemma_settle_rows_steps(a: Seq<CellView>, b: Seq<CellView>, o: Seq<usize>, k: int)
    requires
        a.len() == b.len(),
        is_perm(o, a.len() as int),
        0 <= k <= o.len(),
        forall|i: int| 0 <= i < a.len() ==> same_but_y(#[trigger] a[i], b[i]),
    ensures
        settle_steps(a, o, k).len() == a.len(),
        settle_steps(b, o, k).len() == a.len(),
        forall|i: int| 0 <= i < a.len() ==> same_but_y(#[trigger] settle_steps(a, o, k)[i], settle_steps(b, o, k)[i]),
        forall|m: int| 0 <= m < k ==> settle_steps(a, o, k)[#[trigger] o[m] as int] == settle_steps(b, o, k)[o[m] as int],
    decreases k,
{
    if k > 0 {
        lemma_settle_rows_steps(a, b, o, k - 1);
        let (sa, sb) = (settle_steps(a, o, k - 1), settle_steps(b, o, k - 1));
        let i = o[k - 1] as int;
        let pre = o.take(k - 1);
        assert forall|t: int| 0 <= t < pre.len() implies sa[#[trigger] pre[t] as int] == sb[pre[t] as int] by {
            assert(pre[t] == o[t]);
        }
        assert(same_but_y(sa[i], sb[i]));
        lemma_top_agree(sa, sb, pre, sa[i], sb[i]);
        let (sa2, sb2) = (settle_steps(a, o, k), settle_steps(b, o, k));
        assert forall|i2: int| 0 <= i2 < a.len() implies same_but_y(#[trigger] sa2[i2], sb2[i2]) by {
            assert(same_but_y(sa[i2], sb[i2]));
        }
        assert forall|m: int| 0 <= m < k implies sa2[#[trigger] o[m] as int] == sb2[o[m] as int] by {
            if m < k - 1 {
                assert(o[m] != o[k - 1]);
            }
        }
    }
}

} // verus!
