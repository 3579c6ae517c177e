//! The abstract view of a schedule: a sequence of groups `(tick, payloads)`
//! kept in non-decreasing order of tick.

use vstd::prelude::*;

verus! {

/// Every group is due no later than the groups that follow it.
pub open spec fn sorted_by_tick<T>(s: Seq<(u32, Seq<T>)>) -> bool {
    forall|i: int, j: int| 0 <= i <= j < s.len() ==> s[i].0 <= s[j].0
}

/// Every group is due strictly before the groups that follow it,
/// so no two groups share a tick.
pub open spec fn strictly_sorted_by_tick<T>(s: Seq<(u32, Seq<T>)>) -> bool {
    forall|i: int, j: int| 0 <= i < j < s.len() ==> s[i].0 < s[j].0
}

/// Where a group due at `tick` is placed: after every group due at or
/// before `tick`, so groups of equal tick keep the order they were added in.
pub open spec fn insert_pos<T>(s: Seq<(u32, Seq<T>)>, tick: u32) -> int
    decreases s.len(),
{
    if s.len() == 0 {
        0
    } else if s.last().0 <= tick {
        s.len() as int
    } else {
        insert_pos(s.drop_last(), tick)
    }
}

/// The schedule after adding the group `g` as a group of its own.
pub open spec fn schedule<T>(s: Seq<(u32, Seq<T>)>, g: (u32, Seq<T>)) -> Seq<(u32, Seq<T>)> {
    s.insert(insert_pos(s, g.0), g)
}

/// All payloads of the schedule, group after group.
pub open spec fn all_payloads<T>(s: Seq<(u32, Seq<T>)>) -> Seq<T>
    decreases s.len(),
{
    if s.len() == 0 {
        Seq::empty()
    } else {
        all_payloads(s.drop_last()) + s.last().1
    }
}

/// Holds of a group due strictly after the absolute tick `tick`.
pub open spec fn is_due_after<T>(tick: int) -> spec_fn((u32, Seq<T>)) -> bool {
    |g: (u32, Seq<T>)| g.0 > tick
}

/// Holds of a group due at the absolute tick `tick`.
pub open spec fn is_due_at<T>(tick: u32) -> spec_fn((u32, Seq<T>)) -> bool {
    |g: (u32, Seq<T>)| g.0 == tick
}

/// The groups due strictly after the absolute tick `tick`, in order.
pub open spec fn due_after<T>(s: Seq<(u32, Seq<T>)>, tick: int) -> Seq<(u32, Seq<T>)> {
    s.filter(is_due_after(tick))
}

/// The schedule with each run of groups of equal tick merged into one group,
/// whose payloads are those of the run, in order.
pub open spec fn compact<T>(s: Seq<(u32, Seq<T>)>) -> Seq<(u32, Seq<T>)>
    decreases s.len(),
{
    if s.len() == 0 {
        s
    } else {
        let c = compact(s.drop_last());
        let g = s.last();
        if c.len() > 0 && c.last().0 == g.0 {
            c.drop_last().push((g.0, c.last().1 + g.1))
        } else {
            c.push(g)
        }
    }
}

/// In a sorted schedule, the groups before `insert_pos(s, tick)` are due at
/// or before `tick` and those from it on strictly after.
pub proof fn lemma_insert_pos<T>(s: Seq<(u32, Seq<T>)>, tick: u32)
    requires
        sorted_by_tick(s),
    ensures
        0 <= insert_pos(s, tick) <= s.len(),
        forall|j: int| 0 <= j < insert_pos(s, tick) ==> s[j].0 <= tick,
        forall|j: int| insert_pos(s, tick) <= j < s.len() ==> s[j].0 > tick,
    decreases s.len(),
{
    if s.len() > 0 {
        if s.last().0 > tick {
            let d = s.drop_last();
            lemma_sorted_drop_last(s);
            lemma_insert_pos(d, tick);
            assert forall|j: int| 0 <= j < insert_pos(s, tick) implies s[j].0 <= tick by {
                assert(s[j] == d[j]);
            }
            assert forall|j: int| insert_pos(s, tick) <= j < s.len() implies s[j].0 > tick by {
                if j < s.len() - 1 {
                    assert(s[j] == d[j]);
                }
            }
        } else {
            assert forall|j: int| 0 <= j < s.len() implies s[j].0 <= tick by {
                assert(s[j].0 <= s[s.len() - 1].0);
            }
        }
    }
}

/// A sorted schedule stays sorted without its last group.
pub proof fn lemma_sorted_drop_last<T>(s: Seq<(u32, Seq<T>)>)
    requires
        sorted_by_tick(s),
        s.len() > 0,
    ensures
        sorted_by_tick(s.drop_last()),
{
    let d = s.drop_last();
    assert forall|i: int, j: int| 0 <= i <= j < d.len() implies d[i].0 <= d[j].0 by {
        assert(d[i] == s[i] && d[j] == s[j]);
    }
}

/// Adding a group to a sorted schedule keeps it sorted.
pub proof fn lemma_schedule_sorted<T>(s: Seq<(u32, Seq<T>)>, g: (u32, Seq<T>))
    requires
        sorted_by_tick(s),
    ensures
        sorted_by_tick(schedule(s, g)),
{
    lemma_insert_pos(s, g.0);
    let p = insert_pos(s, g.0);
    let r = schedule(s, g);
    assert forall|i: int, j: int| 0 <= i <= j < r.len() implies r[i].0 <= r[j].0 by {
        if i < p && j > p {
            assert(r[i] == s[i] && r[j] == s[j - 1]);
        }
    }
}

/// The payloads of all groups due at `tick`, group after group.
pub open spec fn payloads_at<T>(s: Seq<(u32, Seq<T>)>, tick: u32) -> Seq<T> {
    all_payloads(s.filter(is_due_at(tick)))
}

/// `payloads_at` of a schedule, from that of the schedule without its last group.
proof fn lemma_payloads_at_last<T>(s: Seq<(u32, Seq<T>)>, tick: u32)
    requires
        s.len() > 0,
    ensures
        payloads_at(s, tick) == if s.last().0 == tick {
            payloads_at(s.drop_last(), tick) + s.last().1
        } else {
            payloads_at(s.drop_last(), tick)
        },
{
    reveal(Seq::filter);
    let f = s.drop_last().filter(is_due_at(tick));
    assert(f.push(s.last()).drop_last() =~= f);
}

/// No payload is due at a tick at which no group is due.
proof fn lemma_payloads_at_absent<T>(s: Seq<(u32, Seq<T>)>, tick: u32)
    requires
        forall|j: int| 0 <= j < s.len() ==> s[j].0 != tick,
    ensures
        payloads_at(s, tick) == Seq::<T>::empty(),
    decreases s.len(),
{
    reveal(Seq::filter);
    if s.len() > 0 {
        assert(s.last().0 != tick);
        let d = s.drop_last();
        assert forall|j: int| 0 <= j < d.len() implies d[j].0 != tick by {
            assert(d[j] == s[j]);
        }
        lemma_payloads_at_absent(d, tick);
        lemma_payloads_at_last(s, tick);
    }
}

/// Some group of the schedule is due at `tick`.
pub open spec fn has_tick<T>(s: Seq<(u32, Seq<T>)>, tick: u32) -> bool {
    exists|j: int| 0 <= j < s.len() && s[j].0 == tick
}

proof fn lemma_has_tick_last<T>(s: Seq<(u32, Seq<T>)>, tick: u32)
    requires
        s.len() > 0,
    ensures
        has_tick(s, tick) == (has_tick(s.drop_last(), tick) || s.last().0 == tick),
{
    let d = s.drop_last();
    if has_tick(s, tick) && s.last().0 != tick {
        let j = choose|j: int| 0 <= j < s.len() && s[j].0 == tick;
        assert(d[j] == s[j]);
    }
    if has_tick(d, tick) {
        let j = choose|j: int| 0 <= j < d.len() && d[j].0 == tick;
        assert(d[j] == s[j]);
    }
    if s.last().0 == tick {
        assert(s[s.len() - 1].0 == tick);
    }
}

/// What compaction of a sorted schedule `s` gives, as stated by `lemma_compact`.
spec fn compact_facts<T>(s: Seq<(u32, Seq<T>)>) -> bool {
    let c = compact(s);
    &&& strictly_sorted_by_tick(c)
    &&& forall|t: u32| #[trigger] has_tick(c, t) == has_tick(s, t)
    &&& forall|i: int| 0 <= i < c.len() ==> #[trigger] c[i].1 == payloads_at(s, c[i].0)
    &&& all_payloads(c) == all_payloads(s)
}

/// The step of `lemma_compact` where the last group joins the last merged group.
proof fn lemma_compact_merge_step<T>(s: Seq<(u32, Seq<T>)>)
    requires
        sorted_by_tick(s),
        s.len() > 0,
        compact_facts(s.drop_last()),
        compact(s.drop_last()).len() > 0,
        compact(s.drop_last()).last().0 == s.last().0,
    ensures
        compact_facts(s),
{
    let d = s.drop_last();
    let g = s.last();
    let cd = compact(d);
    let c = compact(s);
    let last = cd.len() - 1;
    assert(c.len() == cd.len());
    assert forall|i: int| 0 <= i < c.len() implies c[i].0 == cd[i].0 by {}
    assert forall|i: int| 0 <= i < last implies c[i] == cd[i] by {}
    assert(c.drop_last() =~= cd.drop_last());
    assert forall|t: u32| #[trigger] has_tick(c, t) == has_tick(s, t) by {
        lemma_has_tick_last(c, t);
        lemma_has_tick_last(cd, t);
        lemma_has_tick_last(s, t);
        assert(has_tick(cd, g.0) == has_tick(d, g.0));
    }
    assert forall|i: int| 0 <= i < c.len() implies #[trigger] c[i].1 == payloads_at(s, c[i].0) by {
        lemma_payloads_at_last(s, c[i].0);
        if i < last {
            assert(cd[i].0 < cd[last].0);
        }
    }
    assert(all_payloads(c) == all_payloads(cd.drop_last()) + (cd.last().1 + g.1));
    assert(all_payloads(cd) == all_payloads(cd.drop_last()) + cd.last().1);
    assert(all_payloads(cd.drop_last()) + (cd.last().1 + g.1) =~= all_payloads(cd.drop_last())
        + cd.last().1 + g.1);
}

/// The step of `lemma_compact` where the last group starts a merged group of its own.
proof fn lemma_compact_push_step<T>(s: Seq<(u32, Seq<T>)>)
    requires
        sorted_by_tick(s),
        s.len() > 0,
        compact_facts(s.drop_last()),
        !(compact(s.drop_last()).len() > 0 && compact(s.drop_last()).last().0 == s.last().0),
    ensures
        compact_facts(s),
{
    let d = s.drop_last();
    let g = s.last();
    let cd = compact(d);
    let c = compact(s);
    let last = cd.len() as int;
    assert forall|i: int| 0 <= i < cd.len() implies cd[i].0 <= g.0 by {
        assert(has_tick(cd, cd[i].0));
        assert(has_tick(d, cd[i].0));
        let j = choose|j: int| 0 <= j < d.len() && d[j].0 == cd[i].0;
        assert(d[j] == s[j]);
    }
    assert forall|i: int| 0 <= i < cd.len() implies cd[i].0 < g.0 by {
        let k = cd.len() - 1;
        if i < k {
            assert(cd[i].0 < cd[k].0);
        }
    }
    assert forall|i: int| 0 <= i < last implies c[i] == cd[i] by {}
    assert(c.drop_last() =~= cd);
    assert(c.last() == g);
    assert forall|t: u32| #[trigger] has_tick(c, t) == has_tick(s, t) by {
        lemma_has_tick_last(c, t);
        lemma_has_tick_last(s, t);
    }
    assert forall|j: int| 0 <= j < d.len() implies d[j].0 != g.0 by {
        assert(has_tick(d, d[j].0));
        assert(has_tick(cd, d[j].0));
    }
    lemma_payloads_at_absent(d, g.0);
    assert forall|i: int| 0 <= i < c.len() implies #[trigger] c[i].1 == payloads_at(s, c[i].0) by {
        lemma_payloads_at_last(s, c[i].0);
        if i == last {
            assert(Seq::<T>::empty() + g.1 =~= g.1);
        }
    }
}

proof fn lemma_compact_facts<T>(s: Seq<(u32, Seq<T>)>)
    requires
        sorted_by_tick(s),
    ensures
        compact_facts(s),
    decreases s.len(),
{
    if s.len() > 0 {
        lemma_sorted_drop_last(s);
        lemma_compact_facts(s.drop_last());
        let cd = compact(s.drop_last());
        if cd.len() > 0 && cd.last().0 == s.last().0 {
            lemma_compact_merge_step(s);
        } else {
            lemma_compact_push_step(s);
        }
    } else {
        assert forall|t: u32| #[trigger] has_tick(compact(s), t) == has_tick(s, t) by {}
    }
}

/// Compaction of a sorted schedule leaves one group per tick, in order of
/// tick; a tick has a group afterwards exactly when it had one before; the
/// group of a tick holds every payload that was due then, in order; and the
/// payloads of the whole schedule are the same sequence as before.
pub proof fn lemma_compact<T>(s: Seq<(u32, Seq<T>)>)
    requires
        sorted_by_tick(s),
    ensures
        strictly_sorted_by_tick(compact(s)),
        forall|t: u32| #[trigger] has_tick(compact(s), t) == has_tick(s, t),
        forall|i: int|
            0 <= i < compact(s).len() ==> #[trigger] compact(s)[i].1 == payloads_at(
                s,
                compact(s)[i].0,
            ),
        all_payloads(compact(s)) == all_payloads(s),
{
    lemma_compact_facts(s);
}

/// In a schedule whose first `k` groups are due at or before `tick` and
/// whose others are due after it, the groups due after `tick` are those
/// from `k` on.
pub proof fn lemma_due_after_suffix<T>(s: Seq<(u32, Seq<T>)>, tick: int, k: int)
    requires
        0 <= k <= s.len(),
        forall|j: int| 0 <= j < k ==> s[j].0 <= tick,
        forall|j: int| k <= j < s.len() ==> s[j].0 > tick,
    ensures
        due_after(s, tick) == s.skip(k),
    decreases s.len(),
{
    reveal(Seq::filter);
    if s.len() > 0 {
        let d = s.drop_last();
        let kd = if k == s.len() { k - 1 } else { k };
        assert forall|j: int| 0 <= j < kd implies d[j].0 <= tick by {
            assert(d[j] == s[j]);
        }
        assert forall|j: int| kd <= j < d.len() implies d[j].0 > tick by {
            assert(d[j] == s[j]);
        }
        lemma_due_after_suffix(d, tick, kd);
        if k == s.len() {
            assert(s.skip(k) =~= d.skip(kd));
        } else {
            assert(s.skip(k) =~= d.skip(kd).push(s.last()));
        }
    } else {
        assert(s.skip(k) =~= s);
    }
}

/// After removing everything due at or before `tick`, a group remains
/// exactly when it was there and falls due strictly after `tick`: a group
/// due at `tick` itself is removed too.
pub proof fn lemma_remove_threshold<T>(s: Seq<(u32, Seq<T>)>, tick: int)
    ensures
        forall|g: (u32, Seq<T>)| #[trigger]
            due_after(s, tick).contains(g) <==> s.contains(g) && g.0 > tick,
{
    broadcast use Seq::lemma_filter_contains_rev;
    assert forall|g: (u32, Seq<T>)| #[trigger]
        due_after(s, tick).contains(g) implies g.0 > tick by {
        let i = choose|i: int| 0 <= i < due_after(s, tick).len() && due_after(s, tick)[i] == g;
        s.lemma_filter_pred(is_due_after(tick), i);
    }
    assert forall|g: (u32, Seq<T>)| s.contains(g) && g.0 > tick implies #[trigger] due_after(
        s,
        tick,
    ).contains(g) by {
        let i = choose|i: int| 0 <= i < s.len() && s[i] == g;
        s.lemma_filter_contains(is_due_after(tick), i);
    }
}

/// The payloads of two schedules placed one after the other.
pub proof fn lemma_all_payloads_concat<T>(a: Seq<(u32, Seq<T>)>, b: Seq<(u32, Seq<T>)>)
    ensures
        all_payloads(a + b) == all_payloads(a) + all_payloads(b),
    decreases b.len(),
{
    if b.len() == 0 {
        assert(a + b =~= a);
        assert(all_payloads(a) + all_payloads(b) =~= all_payloads(a));
    } else {
        lemma_all_payloads_concat(a, b.drop_last());
        assert((a + b).drop_last() =~= a + b.drop_last());
        assert(all_payloads(a) + all_payloads(b.drop_last()) + b.last().1 =~= all_payloads(a) + (
        all_payloads(b.drop_last()) + b.last().1));
    }
}

/// Adding a group to a sorted schedule adds it as a group of its own: every
/// group already there stays, none is merged with it, and the schedule
/// stays sorted.
pub proof fn lemma_insert_never_merges<T>(s: Seq<(u32, Seq<T>)>, g: (u32, Seq<T>))
    requires
        sorted_by_tick(s),
    ensures
        schedule(s, g).len() == s.len() + 1,
        schedule(s, g).to_multiset() == s.to_multiset().insert(g),
        sorted_by_tick(schedule(s, g)),
{
    lemma_insert_pos(s, g.0);
    lemma_schedule_sorted(s, g);
    vstd::seq_lib::to_multiset_insert(s, insert_pos(s, g.0), g);
}

/// The payloads held after adding a group to a sorted schedule are those
/// held before together with the group's own, counted with multiplicity.
pub proof fn lemma_insert_payloads<T>(s: Seq<(u32, Seq<T>)>, g: (u32, Seq<T>))
    requires
        sorted_by_tick(s),
    ensures
        all_payloads(schedule(s, g)).to_multiset() == all_payloads(s).to_multiset().add(
            g.1.to_multiset(),
        ),
{
    lemma_insert_pos(s, g.0);
    let p = insert_pos(s, g.0);
    let a = s.take(p);
    let b = s.skip(p);
    let one = seq![g];
    assert(s =~= a + b);
    assert(schedule(s, g) =~= a + one + b);
    lemma_all_payloads_concat(a, b);
    lemma_all_payloads_concat(a + one, b);
    lemma_all_payloads_concat(a, one);
    assert(one.drop_last() =~= Seq::<(u32, Seq<T>)>::empty());
    assert(all_payloads(one.drop_last()) == Seq::<T>::empty());
    assert(all_payloads(one) =~= g.1);
    let pa = all_payloads(a);
    let pb = all_payloads(b);
    vstd::seq_lib::lemma_multiset_commutative(pa + g.1, pb);
    vstd::seq_lib::lemma_multiset_commutative(pa, g.1);
    vstd::seq_lib::lemma_multiset_commutative(pa, pb);
    assert(pa.to_multiset().add(g.1.to_multiset()).add(pb.to_multiset()) =~= pa.to_multiset().add(
        pb.to_multiset(),
    ).add(g.1.to_multiset()));
}

} // verus!
