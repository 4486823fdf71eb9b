//! Open addressing over record indices: the linear-probing invariant the
//! matcher's tables keep, and what it guarantees a probe walk.
//!
//! A table is a flat `Vec<u32>` of record indices, [`EMPTY`] marking a free
//! slot. Record `i` has a *home* slot its hash picks; it sits at the first
//! free slot at or after its home, wrapping at the end. Records are inserted
//! in index order, so among records sharing a home the earlier one always
//! sits nearer to it.

use vstd::prelude::*;

verus! {

/// The free-slot sentinel.
pub const EMPTY: u32 = u32::MAX;

/// The slot `d` steps after `h`, wrapping at `cap`.
pub open spec fn step(h: int, d: int, cap: int) -> int {
    if h + d < cap {
        h + d
    } else {
        h + d - cap
    }
}

/// How many steps slot `p` lies after home `h`.
pub open spec fn dist(h: int, p: int, cap: int) -> int {
    if p >= h {
        p - h
    } else {
        p + cap - h
    }
}

/// How many slots of `t` are free.
pub open spec fn count_empty(t: Seq<u32>) -> nat
    decreases t.len(),
{
    if t.len() == 0 {
        0
    } else {
        count_empty(t.drop_last()) + if t.last() == EMPTY {
            1nat
        } else {
            0nat
        }
    }
}

/// `t` holds record `i` at `pos[i]`, reached by probing from `homes[i]`
/// through occupied slots only; among records sharing a home the earlier
/// index sits nearer to it; and at least one slot is free.
pub open spec fn table_wf(t: Seq<u32>, homes: Seq<int>, pos: Seq<int>) -> bool {
    let cap = t.len() as int;
    &&& homes.len() == pos.len()
    &&& homes.len() < cap
    &&& homes.len() < EMPTY
    &&& count_empty(t) == cap - homes.len()
    &&& forall|i: int| 0 <= i < homes.len() ==> 0 <= #[trigger] homes[i] < cap
    &&& forall|i: int| 0 <= i < pos.len() ==> 0 <= #[trigger] pos[i] < cap && t[pos[i]] == i
    &&& forall|p: int|
        0 <= p < cap && #[trigger] t[p] != EMPTY ==> t[p] < homes.len() && pos[t[p] as int] == p
    &&& forall|i: int, d: int|
        0 <= i < homes.len() && 0 <= d < dist(homes[i], pos[i], cap) ==> #[trigger] t[step(
            homes[i],
            d,
            cap,
        )] != EMPTY
    &&& forall|i: int, j: int|
        0 <= i < j < homes.len() && #[trigger] homes[i] == #[trigger] homes[j] ==> dist(
            homes[i],
            pos[i],
            cap,
        ) < dist(homes[j], pos[j], cap)
}

pub proof fn lemma_step_dist(h: int, p: int, d: int, cap: int)
    requires
        0 <= h < cap,
        0 <= p < cap,
        0 <= d < cap,
    ensures
        0 <= dist(h, p, cap) < cap,
        step(h, dist(h, p, cap), cap) == p,
        0 <= step(h, d, cap) < cap,
        dist(h, step(h, d, cap), cap) == d,
{
}

pub proof fn lemma_count_empty_all(cap: nat)
    ensures
        count_empty(Seq::new(cap, |i: int| EMPTY)) == cap,
    decreases cap,
{
    if cap > 0 {
        lemma_count_empty_all((cap - 1) as nat);
        assert(Seq::new(cap, |i: int| EMPTY).drop_last() =~= Seq::new((cap - 1) as nat, |i: int| EMPTY));
    }
}

pub proof fn lemma_count_empty_update(t: Seq<u32>, p: int, x: u32)
    requires
        0 <= p < t.len(),
        t[p] == EMPTY,
        x != EMPTY,
    ensures
        count_empty(t.update(p, x)) + 1 == count_empty(t),
    decreases t.len(),
{
    let u = t.update(p, x);
    if p == t.len() - 1 {
        assert(u.drop_last() =~= t.drop_last());
    } else {
        lemma_count_empty_update(t.drop_last(), p, x);
        assert(u.drop_last() =~= t.drop_last().update(p, x));
    }
}

pub proof fn lemma_has_empty(t: Seq<u32>)
    requires
        count_empty(t) > 0,
    ensures
        exists|p: int| 0 <= p < t.len() && t[p] == EMPTY,
    decreases t.len(),
{
    if t.last() == EMPTY {
        assert(t[t.len() - 1] == EMPTY);
    } else {
        lemma_has_empty(t.drop_last());
        let p = choose|p: int| 0 <= p < t.drop_last().len() && t.drop_last()[p] == EMPTY;
        assert(t[p] == EMPTY);
    }
}

/// A walk from `h` that has seen only occupied slots can take another step:
/// some slot is free, so the walk never wraps all the way round.
pub proof fn lemma_probe_continues(t: Seq<u32>, homes: Seq<int>, pos: Seq<int>, h: int, d: int)
    requires
        table_wf(t, homes, pos),
        0 <= h < t.len(),
        0 <= d < t.len(),
        forall|e: int| 0 <= e <= d ==> t[step(h, e, t.len() as int)] != EMPTY,
    ensures
        d + 1 < t.len(),
{
    let cap = t.len() as int;
    lemma_has_empty(t);
    let q = choose|q: int| 0 <= q < t.len() && t[q] == EMPTY;
    lemma_step_dist(h, q, 0, cap);
    let e = dist(h, q, cap);
    if e <= d {
        assert(t[step(h, e, cap)] != EMPTY);
    }
}

/// When a walk from `h` reaches a free slot after `d` steps, it has passed
/// every record whose home is `h`.
pub proof fn lemma_walk_covers(t: Seq<u32>, homes: Seq<int>, pos: Seq<int>, h: int, d: int, i: int)
    requires
        table_wf(t, homes, pos),
        0 <= h < t.len(),
        0 <= d < t.len(),
        t[step(h, d, t.len() as int)] == EMPTY,
        0 <= i < homes.len(),
        homes[i] == h,
    ensures
        dist(h, pos[i], t.len() as int) < d,
{
    let cap = t.len() as int;
    lemma_step_dist(h, pos[i], d, cap);
    let di = dist(h, pos[i], cap);
    if di > d {
        assert(t[step(homes[i], d, cap)] != EMPTY);
    } else if di == d {
        assert(t[pos[i]] == i);
    }
}

/// Inserting the next record at the first free slot of its walk keeps the
/// table well formed.
pub proof fn lemma_insert(t: Seq<u32>, homes: Seq<int>, pos: Seq<int>, h: int, d: int)
    requires
        table_wf(t, homes, pos),
        homes.len() + 1 < t.len(),
        homes.len() + 1 < EMPTY,
        0 <= h < t.len(),
        0 <= d < t.len(),
        t[step(h, d, t.len() as int)] == EMPTY,
        forall|e: int| 0 <= e < d ==> t[step(h, e, t.len() as int)] != EMPTY,
    ensures
        table_wf(
            t.update(step(h, d, t.len() as int), homes.len() as u32),
            homes.push(h),
            pos.push(step(h, d, t.len() as int)),
        ),
{
    let cap = t.len() as int;
    let n = homes.len() as int;
    let p = step(h, d, cap);
    let t2 = t.update(p, n as u32);
    let homes2 = homes.push(h);
    let pos2 = pos.push(p);
    lemma_step_dist(h, p, d, cap);
    lemma_count_empty_update(t, p, n as u32);
    assert forall|i: int| 0 <= i < pos2.len() implies 0 <= #[trigger] pos2[i] < cap && t2[pos2[i]]
        == i by {
        if i < n {
            assert(pos2[i] == pos[i]);
            assert(pos[i] != p);
        }
    }
    assert forall|q: int| 0 <= q < cap && #[trigger] t2[q] != EMPTY implies t2[q] < homes2.len()
        && pos2[t2[q] as int] == q by {
        if q != p {
            assert(t2[q] == t[q]);
        }
    }
    assert forall|i: int, e: int|
        0 <= i < homes2.len() && 0 <= e < dist(homes2[i], pos2[i], cap) implies #[trigger] t2[step(
        homes2[i],
        e,
        cap,
    )] != EMPTY by {
        if i < n {
            assert(t[step(homes[i], e, cap)] != EMPTY);
        } else {
            assert(t[step(h, e, cap)] != EMPTY);
        }
    }
    assert forall|i: int, j: int|
        0 <= i < j < homes2.len() && #[trigger] homes2[i] == #[trigger] homes2[j] implies dist(
        homes2[i],
        pos2[i],
        cap,
    ) < dist(homes2[j], pos2[j], cap) by {
        if j == n {
            lemma_walk_covers(t, homes, pos, h, d, i);
        } else {
            assert(homes2[i] == homes[i] && homes2[j] == homes[j]);
        }
    }
}

/// The empty table for no records.
pub proof fn lemma_empty_table(cap: nat)
    requires
        cap > 0,
    ensures
        table_wf(Seq::new(cap, |i: int| EMPTY), Seq::empty(), Seq::empty()),
{
    lemma_count_empty_all(cap);
}

} // verus!
