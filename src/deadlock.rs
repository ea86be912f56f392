//! Banker's-algorithm safety checker over sparse allocation and need tables.
use std::collections::{BTreeMap, BTreeSet};
use vstd::std_specs::btree::{spec_btree_keys_iter, spec_keys_iter};
use vstd::std_specs::cmp::OrdSpec;
use vstd::std_specs::iter::IteratorSpec;
use vstd::prelude::*;

verus! {

broadcast use vstd::laws_cmp::group_laws_cmp;

/// A sparse table: task id to (resource id to count).
pub type Table = Map<usize, Map<usize, usize>>;

/// The abstract view of a sparse table held in nested B-tree maps.
pub open spec fn table_view(m: BTreeMap<usize, BTreeMap<usize, usize>>) -> Table {
    m@.map_values(|row: BTreeMap<usize, usize>| row@)
}

/// The count that a sparse table records for task `t` and resource `r`; absent means zero.
pub open spec fn entry(m: Table, t: usize, r: usize) -> nat {
    if m.contains_key(t) && m[t].contains_key(r) {
        m[t][r] as nat
    } else {
        0
    }
}

/// The row of task `t`; absent means an empty row.
pub open spec fn row(m: Table, t: usize) -> Map<usize, usize> {
    if m.contains_key(t) {
        m[t]
    } else {
        Map::empty()
    }
}

/// A sparse table holds no zero entries and no empty rows, and names only
/// resources below `n`.
pub open spec fn table_wf(m: Table, n: nat) -> bool {
    &&& m.dom().finite()
    &&& forall|t: usize| #[trigger] m.contains_key(t) ==> {
        &&& m[t].dom().finite()
        &&& !m[t].is_empty()
        &&& forall|r: usize| #[trigger] m[t].contains_key(r) ==> m[t][r] > 0 && r < n
    }
}

/// `m` with `cnt` added to the entry of `(t, r)`.
pub open spec fn table_add(m: Table, t: usize, r: usize, cnt: usize) -> Table {
    if cnt == 0 {
        m
    } else {
        m.insert(t, row(m, t).insert(r, (entry(m, t, r) + cnt) as usize))
    }
}

/// `m` with `cnt` taken from the entry of `(t, r)`, stopping at zero; an entry
/// that reaches zero is removed, and so is a row that becomes empty.
pub open spec fn table_sub(m: Table, t: usize, r: usize, cnt: usize) -> Table {
    if entry(m, t, r) == 0 {
        m
    } else if entry(m, t, r) > cnt {
        m.insert(t, m[t].insert(r, (entry(m, t, r) - cnt) as usize))
    } else if m[t].remove(r).is_empty() {
        m.remove(t)
    } else {
        m.insert(t, m[t].remove(r))
    }
}

/// Adds `cnt` to the entry of `(t, r)` in a sparse table.
fn table_inc(m: &mut BTreeMap<usize, BTreeMap<usize, usize>>, t: usize, r: usize, cnt: usize, n: Ghost<nat>)
    requires
        table_wf(table_view(*old(m)), n@),
        r < n@,
        entry(table_view(*old(m)), t, r) + cnt <= usize::MAX,
    ensures
        table_wf(table_view(*final(m)), n@),
        table_view(*final(m)) == table_add(table_view(*old(m)), t, r, cnt),
{
    if cnt == 0 {
        return;
    }
    let ghost v = table_view(*m);
    let mut new_row: BTreeMap<usize, usize> = match m.get(&t) {
        Some(old_row) => old_row.clone(),
        None => BTreeMap::new(),
    };
    assert(new_row@ == row(v, t));
    let cur: usize = match new_row.get(&r) {
        Some(c) => *c,
        None => 0,
    };
    assert(cur == entry(v, t, r));
    new_row.insert(r, cur + cnt);
    m.insert(t, new_row);
    assert(table_view(*m) =~= table_add(v, t, r, cnt));
}

/// Takes `cnt` from the entry of `(t, r)` in a sparse table, pruning what reaches zero.
fn table_dec(m: &mut BTreeMap<usize, BTreeMap<usize, usize>>, t: usize, r: usize, cnt: usize, n: Ghost<nat>)
    requires
        table_wf(table_view(*old(m)), n@),
    ensures
        table_wf(table_view(*final(m)), n@),
        table_view(*final(m)) == table_sub(table_view(*old(m)), t, r, cnt),
{
    let ghost v = table_view(*m);
    let mut new_row: BTreeMap<usize, usize> = match m.get(&t) {
        Some(old_row) => old_row.clone(),
        None => {
            return;
        },
    };
    let cur: usize = match new_row.get(&r) {
        Some(c) => *c,
        None => {
            return;
        },
    };
    if cur > cnt {
        new_row.insert(r, cur - cnt);
        m.insert(t, new_row);
        assert(table_view(*m) =~= table_sub(v, t, r, cnt));
    } else {
        new_row.remove(&r);
        if new_row.is_empty() {
            m.remove(&t);
            assert(table_view(*m) =~= table_sub(v, t, r, cnt));
        } else {
            m.insert(t, new_row);
            assert(table_view(*m) =~= table_sub(v, t, r, cnt));
        }
    }
}

/// Adds each task id of `m` to `set`.
fn insert_tasks(m: &BTreeMap<usize, BTreeMap<usize, usize>>, set: &mut BTreeSet<usize>)
    requires
        old(set)@.finite(),
    ensures
        final(set)@.finite(),
        final(set)@ == old(set)@ + m@.dom(),
{
    let ghost start = set@;
    let ghost mut seen: Seq<usize> = Seq::empty();
    let ghost full: Seq<usize> = spec_keys_iter(m).remaining().unref();
    for t in it: m.keys()
        invariant
            set@.finite(),
            it.seq().unref() == full,
            full.to_set() == m@.dom(),
            seen == it.seq().unref().take(it.index()),
            set@ == start + seen.to_set(),
    {
        let k: usize = *t;
        proof {
            assert(k == it.seq().unref()[it.index()]);
            assert(it.seq().unref().take(it.index() + 1) =~= seen.push(k));
            seen.lemma_push_to_set_commute(k);
            seen = seen.push(k);
        }
        set.insert(k);
        assert(set@ =~= start + seen.to_set());
    }
    assert(seen =~= full);
    assert(set@ =~= start + m@.dom());
}

/// Task `t` can run to completion with `work` free: every unit it may still
/// request is there.
pub open spec fn can_finish(need: Table, t: usize, work: Seq<int>) -> bool {
    forall|r: usize| #[trigger] row(need, t).contains_key(r) ==> row(need, t)[r] <= work[r as int]
}

/// `work` once task `t` has finished and released what it holds.
pub open spec fn release(alloc: Table, t: usize, work: Seq<int>) -> Seq<int> {
    Seq::new(work.len(), |r: int| work[r] + entry(alloc, t, r as usize))
}

/// `t` is the lowest task id among those in `pending` that can finish with `work`.
pub open spec fn is_next(need: Table, work: Seq<int>, pending: Set<usize>, t: usize) -> bool {
    &&& pending.contains(t)
    &&& can_finish(need, t, work)
    &&& forall|u: usize| pending.contains(u) && can_finish(need, u, work) ==> t <= u
}

/// Running the pending tasks one by one, always the lowest id that can
/// finish, lets all of them finish.
pub open spec fn safe_from(alloc: Table, need: Table, work: Seq<int>, pending: Set<usize>) -> bool
    decreases pending.len(),
    when pending.finite()
{
    if exists|t: usize| is_next(need, work, pending, t) {
        let t = choose|t: usize| is_next(need, work, pending, t);
        safe_from(alloc, need, release(alloc, t, work), pending.remove(t))
    } else {
        pending.is_empty()
    }
}

/// The state is safe: every task that holds or may request a resource can
/// finish in some order, starting from the free counts.
pub open spec fn is_safe(available: Seq<usize>, alloc: Table, need: Table) -> bool {
    safe_from(alloc, need, free_work(available), alloc.dom() + need.dom())
}

/// The free counts as integers.
pub open spec fn free_work(available: Seq<usize>) -> Seq<int> {
    available.map_values(|v: usize| v as int)
}

/// `x` capped at the largest `usize`.
pub open spec fn capped(x: int) -> int {
    if x > usize::MAX {
        usize::MAX as int
    } else {
        x
    }
}

/// `w` holds each count of `work`, capped.
pub open spec fn tracks(w: Seq<usize>, work: Seq<int>) -> bool {
    &&& w.len() == work.len()
    &&& forall|r: int| 0 <= r < w.len() ==> #[trigger] w[r] == capped(work[r]) && work[r] >= 0
}

proof fn lemma_remove_to_set(s: Seq<usize>, i: int)
    requires
        s.no_duplicates(),
        0 <= i < s.len(),
    ensures
        s.remove(i).no_duplicates(),
        s.remove(i).to_set() == s.to_set().remove(s[i]),
{
    let t = s.remove(i);
    assert forall|a: int, b: int| 0 <= a < b < t.len() implies t[a] != t[b] by {
        let a2 = if a < i { a } else { a + 1 };
        let b2 = if b < i { b } else { b + 1 };
        assert(s[a2] != s[b2]);
    }
    assert forall|x: usize| t.to_set().contains(x) <==> s.to_set().remove(s[i]).contains(x) by {
        if t.contains(x) {
            let j = choose|j: int| 0 <= j < t.len() && t[j] == x;
            let j2 = if j < i { j } else { j + 1 };
            assert(s[j2] == x);
        }
        if s.contains(x) && x != s[i] {
            let j = choose|j: int| 0 <= j < s.len() && s[j] == x;
            if j < i {
                assert(t[j] == x);
            } else {
                assert(t[j - 1] == x);
            }
        }
    }
    assert(t.to_set() =~= s.to_set().remove(s[i]));
}

/// Each task of `order` in turn finds what it may still request free, then
/// finishes and releases what it holds.
pub open spec fn runs_in_order(alloc: Table, need: Table, work: Seq<int>, order: Seq<usize>) -> bool
    decreases order.len(),
{
    if order.len() == 0 {
        true
    } else {
        &&& can_finish(need, order[0], work)
        &&& runs_in_order(alloc, need, release(alloc, order[0], work), order.drop_first())
    }
}

/// `order` lists each pending task once and lets them all finish from `work`.
pub open spec fn safe_order(alloc: Table, need: Table, work: Seq<int>, pending: Set<usize>, order: Seq<usize>) -> bool {
    &&& order.no_duplicates()
    &&& order.to_set() == pending
    &&& runs_in_order(alloc, need, work, order)
}

proof fn lemma_fit_monotone(need: Table, t: usize, w: Seq<int>, w2: Seq<int>)
    requires
        can_finish(need, t, w),
        w.len() == w2.len(),
        forall|r: int| 0 <= r < w.len() ==> w[r] <= #[trigger] w2[r],
        forall|r: usize| #[trigger] row(need, t).contains_key(r) ==> r < w.len(),
    ensures
        can_finish(need, t, w2),
{
    assert forall|r: usize| #[trigger] row(need, t).contains_key(r) implies row(need, t)[r] <= w2[r as int] by {
        assert(w[r as int] <= w2[r as int]);
    }
}

proof fn lemma_release_commutes(alloc: Table, t: usize, u: usize, w: Seq<int>)
    ensures
        release(alloc, u, release(alloc, t, w)) == release(alloc, t, release(alloc, u, w)),
{
    assert(release(alloc, u, release(alloc, t, w)) =~= release(alloc, t, release(alloc, u, w)));
}

/// Letting a task that can finish go first keeps the rest of an order runnable.
proof fn lemma_run_first(alloc: Table, need: Table, work: Seq<int>, order: Seq<usize>, k: int, n: nat)
    requires
        table_wf(need, n),
        work.len() == n,
        0 <= k < order.len(),
        runs_in_order(alloc, need, work, order),
        can_finish(need, order[k], work),
    ensures
        runs_in_order(alloc, need, release(alloc, order[k], work), order.remove(k)),
    decreases order.len(),
{
    let t = order[k];
    if k == 0 {
        assert(order.remove(0) =~= order.drop_first());
    } else {
        let u = order[0];
        let rest = order.drop_first();
        let wu = release(alloc, u, work);
        assert(rest[k - 1] == t);
        assert forall|r: usize| #[trigger] row(need, t).contains_key(r) implies r < work.len() by {}
        lemma_fit_monotone(need, t, work, wu);
        lemma_run_first(alloc, need, wu, rest, k - 1, n);
        let wt = release(alloc, t, work);
        assert forall|r: usize| #[trigger] row(need, u).contains_key(r) implies r < work.len() by {}
        lemma_fit_monotone(need, u, work, wt);
        lemma_release_commutes(alloc, t, u, work);
        assert(order.remove(k).drop_first() =~= rest.remove(k - 1));
        assert(order.remove(k)[0] == u);
    }
}

/// Among the tasks of `s` that can finish with `work`, if any, one has the lowest id.
proof fn lemma_lowest_fit(need: Table, work: Seq<int>, s: Seq<usize>)
    requires
        exists|k: int| 0 <= k < s.len() && can_finish(need, #[trigger] s[k], work),
    ensures
        exists|m: usize| #![trigger s.contains(m)]
            s.contains(m) && can_finish(need, m, work) && forall|u: usize|
                s.contains(u) && can_finish(need, u, work) ==> m <= u,
    decreases s.len(),
{
    let d = s.drop_last();
    let l = s.last();
    if exists|k: int| 0 <= k < d.len() && can_finish(need, #[trigger] d[k], work) {
        lemma_lowest_fit(need, work, d);
        let m0 = choose|m: usize| #![trigger d.contains(m)]
            d.contains(m) && can_finish(need, m, work) && forall|u: usize|
                d.contains(u) && can_finish(need, u, work) ==> m <= u;
        let m = if can_finish(need, l, work) && l < m0 { l } else { m0 };
        assert forall|u: usize| s.contains(u) && can_finish(need, u, work) implies m <= u by {
            let j = choose|j: int| 0 <= j < s.len() && s[j] == u;
            if j < d.len() {
                assert(d[j] == u);
                assert(d.contains(u));
                assert(m0 <= u);
            } else {
                assert(u == l);
            }
        }
        let j0 = choose|j: int| 0 <= j < d.len() && d[j] == m0;
        assert(s[j0] == m0);
        assert(s[s.len() - 1] == l);
        assert(s.contains(m));
    } else {
        assert(can_finish(need, l, work)) by {
            let k = choose|k: int| 0 <= k < s.len() && can_finish(need, #[trigger] s[k], work);
            if k < d.len() {
                assert(d[k] == s[k]);
            }
        }
        assert forall|u: usize| s.contains(u) && can_finish(need, u, work) implies l <= u by {
            let j = choose|j: int| 0 <= j < s.len() && s[j] == u;
            if j < d.len() {
                assert(d[j] == u);
            }
        }
        assert(s[s.len() - 1] == l);
        assert(s.contains(l));
    }
}

/// What the checker computes is what Banker's algorithm promises: the
/// lowest-id-first run lets every pending task finish exactly when some order
/// of the pending tasks does.
pub proof fn lemma_safe_iff_order_exists(alloc: Table, need: Table, work: Seq<int>, pending: Set<usize>, n: nat)
    requires
        pending.finite(),
        table_wf(need, n),
        work.len() == n,
    ensures
        safe_from(alloc, need, work, pending) <==> exists|order: Seq<usize>|
            safe_order(alloc, need, work, pending, order),
    decreases pending.len(),
{
    if exists|t: usize| is_next(need, work, pending, t) {
        let t = choose|t: usize| is_next(need, work, pending, t);
        let w1 = release(alloc, t, work);
        let p1 = pending.remove(t);
        lemma_safe_iff_order_exists(alloc, need, w1, p1, n);
        if safe_from(alloc, need, work, pending) {
            let o1 = choose|o: Seq<usize>| safe_order(alloc, need, w1, p1, o);
            let o = seq![t] + o1;
            assert(o.drop_first() =~= o1);
            assert(o.to_set() =~= pending) by {
                assert forall|x: usize| o.to_set().contains(x) <==> pending.contains(x) by {
                    if o.contains(x) {
                        let j = choose|j: int| 0 <= j < o.len() && o[j] == x;
                        if j > 0 {
                            assert(o1[j - 1] == x);
                            assert(o1.to_set().contains(x));
                        }
                    }
                    if pending.contains(x) && x != t {
                        assert(o1.to_set().contains(x));
                        let j = choose|j: int| 0 <= j < o1.len() && o1[j] == x;
                        assert(o[j + 1] == x);
                    }
                    if x == t {
                        assert(o[0] == x);
                    }
                }
            }
            assert(o.no_duplicates()) by {
                assert forall|a: int, b: int| 0 <= a < b < o.len() implies o[a] != o[b] by {
                    if a == 0 {
                        assert(o1.to_set().contains(o1[b - 1]));
                    } else {
                        assert(o[a] == o1[a - 1] && o[b] == o1[b - 1]);
                    }
                }
            }
            assert(safe_order(alloc, need, work, pending, o));
        }
        if exists|order: Seq<usize>| safe_order(alloc, need, work, pending, order) {
            let o = choose|order: Seq<usize>| safe_order(alloc, need, work, pending, order);
            assert(o.to_set().contains(t));
            let k = choose|k: int| 0 <= k < o.len() && o[k] == t;
            lemma_run_first(alloc, need, work, o, k, n);
            lemma_remove_to_set(o, k);
            assert(safe_order(alloc, need, w1, p1, o.remove(k)));
        }
    } else {
        if exists|order: Seq<usize>| safe_order(alloc, need, work, pending, order) {
            let o = choose|order: Seq<usize>| safe_order(alloc, need, work, pending, order);
            if o.len() > 0 {
                assert(can_finish(need, o[0], work));
                lemma_lowest_fit(need, work, o);
                let m = choose|m: usize| #![trigger o.contains(m)]
                    o.contains(m) && can_finish(need, m, work) && forall|u: usize|
                        o.contains(u) && can_finish(need, u, work) ==> m <= u;
                assert(o.to_set().contains(m));
                assert forall|u: usize| pending.contains(u) && can_finish(need, u, work) implies m <= u by {
                    assert(o.to_set().contains(u));
                }
                assert(is_next(need, work, pending, m));
            }
            assert(o.to_set() =~= Set::<usize>::empty());
        }
        if safe_from(alloc, need, work, pending) {
            let o = Seq::<usize>::empty();
            assert(o.to_set() =~= pending);
            assert(safe_order(alloc, need, work, pending, o));
        }
    }
}

/// Whether task `t` can finish with the (capped) free counts `w`.
fn fits(need: &BTreeMap<usize, BTreeMap<usize, usize>>, t: usize, w: &Vec<usize>, work: Ghost<Seq<int>>) -> (b: bool)
    requires
        table_wf(table_view(*need), w@.len() as nat),
        tracks(w@, work@),
    ensures
        b == can_finish(table_view(*need), t, work@),
{
    let ghost nv = table_view(*need);
    match need.get(&t) {
        None => {
            assert(row(nv, t) =~= Map::<usize, usize>::empty());
            true
        },
        Some(rw) => {
            assert(rw@ == row(nv, t));
            let mut r: usize = 0;
            while r < w.len()
                invariant
                    r <= w.len(),
                    nv == table_view(*need),
                    rw@ == row(nv, t),
                    table_wf(nv, w@.len() as nat),
                    tracks(w@, work@),
                    forall|q: usize| q < r && #[trigger] rw@.contains_key(q) ==> rw@[q] <= work@[q as int],
                decreases w.len() - r,
            {
                match rw.get(&r) {
                    Some(c) => {
                        if *c > w[r] {
                            assert(row(nv, t).contains_key(r) && row(nv, t)[r] > work@[r as int]);
                            assert(!can_finish(nv, t, work@));
                            return false;
                        }
                    },
                    None => {},
                }
                r += 1;
            }
            true
        },
    }
}

/// The lowest id in `set` of a task that can finish with the (capped) free
/// counts `w`, if any.
fn first_fit(
    need: &BTreeMap<usize, BTreeMap<usize, usize>>,
    set: &BTreeSet<usize>,
    w: &Vec<usize>,
    work: Ghost<Seq<int>>,
) -> (r: Option<usize>)
    requires
        table_wf(table_view(*need), w@.len() as nat),
        tracks(w@, work@),
    ensures
        match r {
            Some(t) => is_next(table_view(*need), work@, set@, t),
            None => forall|t: usize| set@.contains(t) ==> !can_finish(table_view(*need), t, work@),
        },
{
    let ghost nv = table_view(*need);
    let ghost full: Seq<usize> = spec_btree_keys_iter(set).remaining().unref();
    proof {
        let rs = spec_btree_keys_iter(set).remaining();
        broadcast use vstd::laws_cmp::lemma_ref_obeys_cmp_spec;

        vstd::std_specs::btree::axiom_spec_btree_keys_iter(set);
        vstd::std_specs::btree::axiom_increasing_seq_meaning(rs);
        assert forall|i: int, j: int| 0 <= i < j < full.len() implies full[i] < full[j] by {
            assert(full.len() == rs.len());
            assert(<&usize as OrdSpec>::cmp_spec(&rs[i], &rs[j]) is Less);
            assert(full[i] == *rs[i] && full[j] == *rs[j]);
        }
    }
    for t in it: set.iter()
        invariant
            nv == table_view(*need),
            table_wf(nv, w@.len() as nat),
            tracks(w@, work@),
            it.seq().unref() == full,
            full.to_set() == set@,
            forall|i: int, j: int| 0 <= i < j < full.len() ==> full[i] < full[j],
            forall|i: int| 0 <= i < it.index() ==> !can_finish(nv, #[trigger] full[i], work@),
    {
        let k: usize = *t;
        proof {
            assert(k == full[it.index()]);
        }
        if fits(need, k, w, work) {
            proof {
                assert(full.to_set().contains(k));
                assert forall|u: usize| set@.contains(u) && can_finish(nv, u, work@) implies k <= u by {
                    assert(full.to_set().contains(u));
                    let j = choose|j: int| 0 <= j < full.len() && full[j] == u;
                    if j < it.index() {
                        assert(!can_finish(nv, full[j], work@));
                    }
                }
            }
            return Some(k);
        }
    }
    proof {
        assert forall|t: usize| set@.contains(t) implies !can_finish(nv, t, work@) by {
            assert(full.to_set().contains(t));
            let j = choose|j: int| 0 <= j < full.len() && full[j] == t;
            assert(!can_finish(nv, full[j], work@));
        }
    }
    None
}

/// Adds what task `t` holds to the (capped) free counts `w`.
fn release_into(alloc: &BTreeMap<usize, BTreeMap<usize, usize>>, t: usize, w: &mut Vec<usize>, work: Ghost<Seq<int>>)
    requires
        table_wf(table_view(*alloc), old(w)@.len() as nat),
        tracks(old(w)@, work@),
    ensures
        tracks(final(w)@, release(table_view(*alloc), t, work@)),
{
    let ghost av = table_view(*alloc);
    let ghost w0 = w@;
    let ghost target = release(av, t, work@);
    match alloc.get(&t) {
        None => {
            assert(tracks(w@, target));
        },
        Some(rw) => {
            assert(rw@ == row(av, t));
            let n = w.len();
            let mut r: usize = 0;
            while r < n
                invariant
                    r <= n,
                    n == w@.len(),
                    n == w0.len(),
                    rw@ == row(av, t),
                    target == release(av, t, work@),
                    tracks(w0, work@),
                    forall|q: int| 0 <= q < r ==> #[trigger] w@[q] == capped(target[q]),
                    forall|q: int| r <= q < n ==> #[trigger] w@[q] == w0[q],
                decreases n - r,
            {
                assert(target[r as int] == work@[r as int] + entry(av, t, r));
                match rw.get(&r) {
                    Some(c) => {
                        let v = w[r].saturating_add(*c);
                        w.set(r, v);
                    },
                    None => {},
                }
                assert(w@[r as int] == capped(target[r as int]));
                r += 1;
            }
            assert forall|q: int| 0 <= q < w@.len() implies #[trigger] w@[q] == capped(target[q])
                && target[q] >= 0 by {
                assert(tracks(w0, work@));
                assert(0 <= q < w0.len());
                assert(w0[q] == capped(work@[q]));
            }
            assert(tracks(w@, target));
        },
    }
}

/// Granting `cnt` units of resource `r` to task `t` and then releasing the same
/// units restores the free count of `r` and leaves what `t` holds exactly as it
/// was, zero entries and empty rows pruned as before.
pub proof fn lemma_grant_then_release(available: Seq<usize>, alloc: Table, t: usize, r: usize, cnt: usize)
    requires
        table_wf(alloc, available.len()),
        r < available.len(),
        cnt <= available[r as int],
        entry(alloc, t, r) + cnt <= usize::MAX,
    ensures
        ({
            let granted = available.update(r as int, (available[r as int] - cnt) as usize);
            granted.update(r as int, (granted[r as int] + cnt) as usize) == available
        }),
        table_sub(table_add(alloc, t, r, cnt), t, r, cnt) == alloc,
        table_wf(table_add(alloc, t, r, cnt), available.len()),
{
    let granted = available.update(r as int, (available[r as int] - cnt) as usize);
    assert(granted.update(r as int, (granted[r as int] + cnt) as usize) =~= available);
    let m = table_add(alloc, t, r, cnt);
    if cnt == 0 {
        if entry(alloc, t, r) > 0 {
            assert(alloc[t].insert(r, entry(alloc, t, r) as usize) =~= alloc[t]);
            assert(alloc.insert(t, alloc[t]) =~= alloc);
        }
    } else if entry(alloc, t, r) > 0 {
        assert(m[t].insert(r, entry(alloc, t, r) as usize) =~= alloc[t]);
        assert(m.insert(t, alloc[t]) =~= alloc);
    } else {
        assert(m[t].remove(r) =~= row(alloc, t));
        if row(alloc, t).is_empty() {
            if alloc.contains_key(t) {
                assert(!alloc[t].is_empty());
            }
            assert(m.remove(t) =~= alloc);
        } else {
            assert(m.insert(t, row(alloc, t)) =~= alloc);
        }
    }
    assert forall|u: usize| #[trigger] m.contains_key(u) implies {
        &&& m[u].dom().finite()
        &&& !m[u].is_empty()
        &&& forall|q: usize| #[trigger] m[u].contains_key(q) ==> m[u][q] > 0 && q < available.len()
    } by {
        if u == t && cnt > 0 {
            assert(m[u].contains_key(r));
        }
    }
}

/// The entry of `(t, r)` in a sparse table; zero if absent.
fn table_get(m: &BTreeMap<usize, BTreeMap<usize, usize>>, t: usize, r: usize) -> (c: usize)
    ensures
        c == entry(table_view(*m), t, r),
{
    match m.get(&t) {
        Some(rw) => match rw.get(&r) {
            Some(c) => *c,
            None => 0,
        },
        None => 0,
    }
}

/// A grant lowers what the task may still request of that resource by the
/// units granted, stopping at zero, and leaves every other need as it was;
/// releasing the units later does not give the need back.
pub proof fn lemma_grant_lowers_need(need: Table, t: usize, r: usize, cnt: usize, n: nat, t2: usize, r2: usize)
    requires
        table_wf(need, n),
    ensures
        entry(table_sub(need, t, r, cnt), t, r) == if entry(need, t, r) > cnt {
            entry(need, t, r) - cnt
        } else {
            0
        },
        (t2 != t || r2 != r) ==> entry(table_sub(need, t, r, cnt), t2, r2) == entry(need, t2, r2),
        table_wf(table_sub(need, t, r, cnt), n),
{
    let m = table_sub(need, t, r, cnt);
    if entry(need, t, r) > 0 && entry(need, t, r) <= cnt && !need[t].remove(r).is_empty() {
        assert(m[t] == need[t].remove(r));
    }
    if entry(need, t, r) > 0 && entry(need, t, r) <= cnt && need[t].remove(r).is_empty() && t2 == t {
        assert(need[t].remove(r).dom() =~= Set::<usize>::empty());
        if need[t].contains_key(r2) && r2 != r {
            assert(need[t].remove(r).contains_key(r2));
        }
    }
    assert forall|u: usize| #[trigger] m.contains_key(u) implies {
        &&& m[u].dom().finite()
        &&& !m[u].is_empty()
        &&& forall|q: usize| #[trigger] m[u].contains_key(q) ==> m[u][q] > 0 && q < n
    } by {
        if u == t && entry(need, t, r) > cnt {
            assert(m[u].contains_key(r));
        }
    }
}

/// Safety checker state: free counts per resource, and what each task holds
/// and may still request.
pub struct DeadlockChecker {
    available: Vec<usize>,
    allocation: BTreeMap<usize, BTreeMap<usize, usize>>,
    need: BTreeMap<usize, BTreeMap<usize, usize>>,
}

impl DeadlockChecker {
    /// Free count of each resource kind.
    pub closed spec fn available_view(&self) -> Seq<usize> {
        self.available@
    }

    /// What each task holds.
    pub closed spec fn allocation_view(&self) -> Table {
        table_view(self.allocation)
    }

    /// What each task may still request.
    pub closed spec fn need_view(&self) -> Table {
        table_view(self.need)
    }

    /// Number of resource kinds.
    pub open spec fn resources(&self) -> nat {
        self.available_view().len()
    }

    /// Both tables are sparse and name only known resources.
    pub open spec fn wf(&self) -> bool {
        &&& table_wf(self.allocation_view(), self.resources())
        &&& table_wf(self.need_view(), self.resources())
    }

    /// An empty checker: no resources, no tasks.
    pub fn new() -> (r: Self)
        ensures
            r.wf(),
            r.available_view() == Seq::<usize>::empty(),
            r.allocation_view() == Table::empty(),
            r.need_view() == Table::empty(),
    {
        let r = Self { available: Vec::new(), allocation: BTreeMap::new(), need: BTreeMap::new() };
        assert(r.allocation_view() =~= Table::empty());
        assert(r.need_view() =~= Table::empty());
        r
    }

    /// Adds `cnt` to the free count of `res_id`.
    pub fn inc_available(&mut self, res_id: usize, cnt: usize)
        requires
            old(self).wf(),
            res_id < old(self).resources(),
            old(self).available_view()[res_id as int] + cnt <= usize::MAX,
        ensures
            final(self).wf(),
            final(self).available_view() == old(self).available_view().update(
                res_id as int,
                (old(self).available_view()[res_id as int] + cnt) as usize,
            ),
            final(self).allocation_view() == old(self).allocation_view(),
            final(self).need_view() == old(self).need_view(),
    {
        let v = self.available[res_id] + cnt;
        self.available.set(res_id, v);
    }

    /// Takes `cnt` from the free count of `res_id`.
    pub fn dec_available(&mut self, res_id: usize, cnt: usize)
        requires
            old(self).wf(),
            res_id < old(self).resources(),
            cnt <= old(self).available_view()[res_id as int],
        ensures
            final(self).wf(),
            final(self).available_view() == old(self).available_view().update(
                res_id as int,
                (old(self).available_view()[res_id as int] - cnt) as usize,
            ),
            final(self).allocation_view() == old(self).allocation_view(),
            final(self).need_view() == old(self).need_view(),
    {
        let v = self.available[res_id] - cnt;
        self.available.set(res_id, v);
    }

    /// Adds a new resource kind with `cnt` free units.
    pub fn push_available(&mut self, cnt: usize)
        requires
            old(self).wf(),
        ensures
            final(self).wf(),
            final(self).available_view() == old(self).available_view().push(cnt),
            final(self).allocation_view() == old(self).allocation_view(),
            final(self).need_view() == old(self).need_view(),
    {
        self.available.push(cnt);
    }

    /// Sets the free count of `res_id` to `cnt`.
    pub fn set_available(&mut self, res_id: usize, cnt: usize)
        requires
            old(self).wf(),
            res_id < old(self).resources(),
        ensures
            final(self).wf(),
            final(self).available_view() == old(self).available_view().update(res_id as int, cnt),
            final(self).allocation_view() == old(self).allocation_view(),
            final(self).need_view() == old(self).need_view(),
    {
        self.available.set(res_id, cnt);
    }
    /// Adds `cnt` to what task `tid` holds of `res_id`.
    pub fn inc_allocation(&mut self, tid: usize, res_id: usize, cnt: usize)
        requires
            old(self).wf(),
            res_id < old(self).resources(),
            entry(old(self).allocation_view(), tid, res_id) + cnt <= usize::MAX,
        ensures
            final(self).wf(),
            final(self).available_view() == old(self).available_view(),
            final(self).allocation_view() == table_add(old(self).allocation_view(), tid, res_id, cnt),
            final(self).need_view() == old(self).need_view(),
    {
        let ghost n = self.resources();
        table_inc(&mut self.allocation, tid, res_id, cnt, Ghost(n));
    }

    /// Takes `cnt` from what task `tid` holds of `res_id`; an entry that reaches
    /// zero is removed, and so is a task left holding nothing.
    pub fn dec_allocation(&mut self, tid: usize, res_id: usize, cnt: usize)
        requires
            old(self).wf(),
        ensures
            final(self).wf(),
            final(self).available_view() == old(self).available_view(),
            final(self).allocation_view() == table_sub(old(self).allocation_view(), tid, res_id, cnt),
            final(self).need_view() == old(self).need_view(),
    {
        let ghost n = self.resources();
        table_dec(&mut self.allocation, tid, res_id, cnt, Ghost(n));
    }

    /// Adds `cnt` to what task `tid` may still request of `res_id`.
    pub fn inc_need(&mut self, tid: usize, res_id: usize, cnt: usize)
        requires
            old(self).wf(),
            res_id < old(self).resources(),
            entry(old(self).need_view(), tid, res_id) + cnt <= usize::MAX,
        ensures
            final(self).wf(),
            final(self).available_view() == old(self).available_view(),
            final(self).allocation_view() == old(self).allocation_view(),
            final(self).need_view() == table_add(old(self).need_view(), tid, res_id, cnt),
    {
        let ghost n = self.resources();
        table_inc(&mut self.need, tid, res_id, cnt, Ghost(n));
    }

    /// Takes `cnt` from what task `tid` may still request of `res_id`; an entry
    /// that reaches zero is removed, and so is a task left needing nothing.
    pub fn dec_need(&mut self, tid: usize, res_id: usize, cnt: usize)
        requires
            old(self).wf(),
        ensures
            final(self).wf(),
            final(self).available_view() == old(self).available_view(),
            final(self).allocation_view() == old(self).allocation_view(),
            final(self).need_view() == table_sub(old(self).need_view(), tid, res_id, cnt),
    {
        let ghost n = self.resources();
        table_dec(&mut self.need, tid, res_id, cnt, Ghost(n));
    }

    /// Grants `cnt` units of `res_id` to task `tid`: they leave the free pool,
    /// join what the task holds, and leave what it may still request.
    pub fn alloc_res(&mut self, tid: usize, res_id: usize, cnt: usize)
        requires
            old(self).wf(),
            res_id < old(self).resources(),
            cnt <= old(self).available_view()[res_id as int],
            entry(old(self).allocation_view(), tid, res_id) + cnt <= usize::MAX,
        ensures
            final(self).wf(),
            final(self).available_view() == old(self).available_view().update(
                res_id as int,
                (old(self).available_view()[res_id as int] - cnt) as usize,
            ),
            final(self).allocation_view() == table_add(old(self).allocation_view(), tid, res_id, cnt),
            final(self).need_view() == table_sub(old(self).need_view(), tid, res_id, cnt),
    {
        self.dec_available(res_id, cnt);
        self.inc_allocation(tid, res_id, cnt);
        self.dec_need(tid, res_id, cnt);
    }

    /// Releases `cnt` units of `res_id` held by task `tid` back to the free pool.
    pub fn dealloc_res(&mut self, tid: usize, res_id: usize, cnt: usize)
        requires
            old(self).wf(),
            res_id < old(self).resources(),
            old(self).available_view()[res_id as int] + cnt <= usize::MAX,
        ensures
            final(self).wf(),
            final(self).available_view() == old(self).available_view().update(
                res_id as int,
                (old(self).available_view()[res_id as int] + cnt) as usize,
            ),
            final(self).allocation_view() == table_sub(old(self).allocation_view(), tid, res_id, cnt),
            final(self).need_view() == old(self).need_view(),
    {
        self.dec_allocation(tid, res_id, cnt);
        self.inc_available(res_id, cnt);
    }

    /// Runs the Banker's safety algorithm on the current state: returns whether
    /// every task that holds or may request a resource can finish in some
    /// order. The state is left as it was.
    pub fn check(&self) -> (safe: bool)
        requires
            self.wf(),
        ensures
            safe == is_safe(self.available_view(), self.allocation_view(), self.need_view()),
    {
        let ghost av = self.allocation_view();
        let ghost nv = self.need_view();
        let n = self.available.len();
        let mut w: Vec<usize> = Vec::new();
        let mut i: usize = 0;
        while i < n
            invariant
                i <= n,
                n == self.available@.len(),
                w@ == self.available@.take(i as int),
            decreases n - i,
        {
            w.push(self.available[i]);
            i += 1;
            assert(w@ =~= self.available@.take(i as int));
        }
        let ghost mut work: Seq<int> = free_work(self.available@);
        assert(w@ =~= self.available@);
        let mut unfinished: BTreeSet<usize> = BTreeSet::new();
        insert_tasks(&self.allocation, &mut unfinished);
        insert_tasks(&self.need, &mut unfinished);
        assert(unfinished@ =~= av.dom() + nv.dom());
        loop
            invariant
                self.wf(),
                av == self.allocation_view(),
                nv == self.need_view(),
                w@.len() == n,
                n == self.resources(),
                tracks(w@, work),
                unfinished@.finite(),
                is_safe(self.available_view(), av, nv) == safe_from(av, nv, work, unfinished@),
            decreases unfinished@.len(),
        {
            match first_fit(&self.need, &unfinished, &w, Ghost(work)) {
                None => {
                    proof {
                        assert forall|t: usize| !is_next(nv, work, unfinished@, t) by {}
                    }
                    return unfinished.is_empty();
                },
                Some(t) => {
                    proof {
                        let c = choose|c: usize| is_next(nv, work, unfinished@, c);
                        assert(c <= t && t <= c);
                    }
                    release_into(&self.allocation, t, &mut w, Ghost(work));
                    proof {
                        work = release(av, t, work);
                    }
                    unfinished.remove(&t);
                },
            }
        }
    }

    /// Free count of `res_id`.
    pub fn get_available(&self, res_id: usize) -> (r: usize)
        requires
            res_id < self.resources(),
        ensures
            r == self.available_view()[res_id as int],
    {
        self.available[res_id]
    }

    /// What task `tid` holds of `res_id`; zero if nothing is recorded.
    pub fn get_allocation(&self, tid: usize, res_id: usize) -> (r: usize)
        ensures
            r == entry(self.allocation_view(), tid, res_id),
    {
        table_get(&self.allocation, tid, res_id)
    }

    /// What task `tid` may still request of `res_id`; zero if nothing is recorded.
    pub fn get_need(&self, tid: usize, res_id: usize) -> (r: usize)
        ensures
            r == entry(self.need_view(), tid, res_id),
    {
        table_get(&self.need, tid, res_id)
    }

    /// Whether the allocation table has a row for task `tid`.
    pub fn holds_any(&self, tid: usize) -> (r: bool)
        ensures
            r == self.allocation_view().contains_key(tid),
    {
        self.allocation.contains_key(&tid)
    }

    /// Whether the need table has a row for task `tid`.
    pub fn needs_any(&self, tid: usize) -> (r: bool)
        ensures
            r == self.need_view().contains_key(tid),
    {
        self.need.contains_key(&tid)
    }
}

/// The verdict of `check` on a checker: true exactly when every task that
/// holds or may request a resource can finish in some order, starting from
/// the free counts.
pub proof fn lemma_check_finds_safe_order(c: DeadlockChecker)
    requires
        c.wf(),
    ensures
        is_safe(c.available_view(), c.allocation_view(), c.need_view()) <==> exists|order: Seq<usize>|
            #[trigger] safe_order(
                c.allocation_view(),
                c.need_view(),
                free_work(c.available_view()),
                c.allocation_view().dom() + c.need_view().dom(),
                order,
            ),
{
    lemma_safe_iff_order_exists(
        c.allocation_view(),
        c.need_view(),
        free_work(c.available_view()),
        c.allocation_view().dom() + c.need_view().dom(),
        c.resources(),
    );
}

} // verus!
