//! The tracker: groups of payloads kept in order of the absolute tick at
//! which they fall due.

use vstd::prelude::*;

use crate::model::{
    all_payloads, compact, due_after, has_tick, insert_pos, lemma_compact, lemma_due_after_suffix,
    lemma_insert_pos, lemma_schedule_sorted, schedule, sorted_by_tick, strictly_sorted_by_tick,
};

verus! {

/// Payloads scheduled together, due at the absolute tick `ticks`.
#[derive(Debug)]
pub struct ActorsData<T> {
    pub ticks: u32,
    pub datas: Vec<T>,
}

impl<T> View for ActorsData<T> {
    type V = (u32, Seq<T>);

    open spec fn view(&self) -> (u32, Seq<T>) {
        (self.ticks, self.datas@)
    }
}

/// Why a request to the tracker was refused.
#[derive(Debug, Clone, Copy, PartialEq, Eq, Structural)]
pub enum TrackerError {
    /// The baseline plus the relative tick does not fit in a `u32`.
    TickOverflow,
}

/// Groups of payloads, held in non-decreasing order of their absolute tick,
/// and the baseline tick against which relative ticks are read.
#[derive(Debug)]
pub struct ActorsTracker<T> {
    actors: Vec<ActorsData<T>>,
    current_tick: u32,
}

/// The abstract groups of a sequence of stored groups.
pub open spec fn group_views<T>(v: Seq<ActorsData<T>>) -> Seq<(u32, Seq<T>)> {
    v.map_values(|g: ActorsData<T>| g@)
}

impl<T> View for ActorsTracker<T> {
    type V = Seq<(u32, Seq<T>)>;

    /// The groups, earliest first.
    closed spec fn view(&self) -> Seq<(u32, Seq<T>)> {
        group_views(self.actors@)
    }
}

impl<T> ActorsTracker<T> {
    /// The tick that relative ticks are counted from.
    pub closed spec fn spec_baseline(&self) -> u32 {
        self.current_tick
    }

    /// The groups are in order of tick, and none is due before the baseline.
    pub open spec fn wf(&self) -> bool {
        &&& sorted_by_tick(self@)
        &&& forall|i: int| 0 <= i < self@.len() ==> self@[i].0 >= self.baseline()
    }

    /// An empty tracker whose baseline is tick 0.
    pub fn new() -> (r: Self)
        ensures
            r.wf(),
            r@ == Seq::<(u32, Seq<T>)>::empty(),
            r.baseline() == 0,
    {
        let r = ActorsTracker { actors: Vec::new(), current_tick: 0 };
        assert(r@ =~= Seq::<(u32, Seq<T>)>::empty());
        r
    }

    /// The tick that relative ticks are counted from.
    #[verifier::when_used_as_spec(spec_baseline)]
    pub fn baseline(&self) -> (r: u32)
        ensures
            r == self.baseline(),
    {
        self.current_tick
    }

    /// Schedules `datas` as a new group due `tick` ticks after the baseline.
    /// The group is never merged with one already due at the same tick; it
    /// goes after every group due at or before it.
    pub fn insert(&mut self, tick: u32, datas: Vec<T>) -> (r: Result<(), TrackerError>)
        requires
            old(self).wf(),
        ensures
            final(self).wf(),
            final(self).baseline() == old(self).baseline(),
            r is Ok <==> old(self).baseline() + tick <= u32::MAX,
            r is Ok ==> final(self)@ == schedule(
                old(self)@,
                ((old(self).baseline() + tick) as u32, datas@),
            ),
            r is Err ==> r == Err::<(), TrackerError>(TrackerError::TickOverflow) && final(self)@
                == old(self)@,
    {
        let absolute = match self.current_tick.checked_add(tick) {
            Some(a) => a,
            None => return Err(TrackerError::TickOverflow),
        };
        let ghost s = self@;
        let mut i: usize = self.actors.len();
        assert(s.take(s.len() as int) =~= s);
        while i > 0 && self.actors[i - 1].ticks > absolute
            invariant
                i <= self.actors.len(),
                self@ == s,
                sorted_by_tick(s),
                insert_pos(s, absolute) == insert_pos(s.take(i as int), absolute),
                forall|j: int| i <= j < s.len() ==> s[j].0 > absolute,
            decreases i,
        {
            assert(s.take(i as int).drop_last() =~= s.take(i - 1));
            i = i - 1;
        }
        proof {
            lemma_insert_pos(s, absolute);
            lemma_schedule_sorted(s, (absolute, datas@));
        }
        let entry = ActorsData { ticks: absolute, datas };
        self.actors.insert(i, entry);
        assert(self@ =~= schedule(s, (absolute, datas@)));
        Ok(())
    }

    /// Consumes the tracker and returns one with the same baseline in which
    /// the groups due at the same tick are merged into a single group that
    /// holds their payloads in order.
    pub fn cleanup(self) -> (r: Self)
        requires
            self.wf(),
        ensures
            r.wf(),
            r.baseline() == self.baseline(),
            r@ == compact(self@),
            strictly_sorted_by_tick(r@),
            self@.len() == 0 ==> r@.len() == 0,
    {
        let ghost s = self@;
        let baseline = self.current_tick;
        let mut merged: Vec<ActorsData<T>> = Vec::new();
        assert(s.take(0) =~= Seq::<(u32, Seq<T>)>::empty());
        for group in it: self.actors
            invariant
                group_views(it.seq()) == s,
                group_views(merged@) == compact(s.take(it.index() as int)),
        {
            let ghost i = it.index() as int;
            let mut group = group;
            let n = merged.len();
            if n > 0 && merged[n - 1].ticks == group.ticks {
                let mut last = merged.pop().unwrap();
                last.datas.append(&mut group.datas);
                merged.push(last);
            } else {
                merged.push(group);
            }
            assert(s.take(i + 1).drop_last() =~= s.take(i));
            assert(group_views(merged@) =~= compact(s.take(i + 1)));
        }
        assert(s.take(s.len() as int) =~= s);
        let r = ActorsTracker { actors: merged, current_tick: baseline };
        proof {
            lemma_compact(s);
            assert forall|i: int| 0 <= i < r@.len() implies r@[i].0 >= baseline by {
                assert(has_tick(r@, r@[i].0));
                let j = choose|j: int| 0 <= j < s.len() && s[j].0 == r@[i].0;
            }
        }
        r
    }

    /// Drops every group due at or before `tick` ticks after the baseline,
    /// with its payloads; the groups due later stay, in order.
    pub fn remove(&mut self, tick: u32)
        requires
            old(self).wf(),
        ensures
            final(self).wf(),
            final(self).baseline() == old(self).baseline(),
            final(self)@ == due_after(old(self)@, old(self).baseline() + tick),
    {
        let ghost s = self@;
        let ghost absolute = self.baseline() + tick;
        let mut k: usize = 0;
        assert forall|j: int| 0 <= j < self.actors.len() implies self.actors[j].ticks
            >= self.current_tick by {
            assert(s[j] == self.actors[j]@);
        }
        while k < self.actors.len() && self.actors[k].ticks - self.current_tick <= tick
            invariant
                k <= self.actors.len(),
                self@ == s,
                self.wf(),
                absolute == self.baseline() + tick,
                forall|j: int| 0 <= j < k ==> s[j].0 <= absolute,
                forall|j: int|
                    0 <= j < self.actors.len() ==> self.actors[j].ticks >= self.current_tick,
            decreases self.actors.len() - k,
        {
            assert(s[k as int] == self.actors[k as int]@);
            k = k + 1;
        }
        proof {
            if k < s.len() {
                assert(s[k as int] == self.actors[k as int]@);
                assert forall|j: int| k <= j < s.len() implies s[j].0 > absolute by {
                    assert(s[k as int].0 <= s[j].0);
                }
            }
            lemma_due_after_suffix(s, absolute, k as int);
        }
        let rest = self.actors.split_off(k);
        self.actors = rest;
        assert(self@ =~= s.skip(k as int));
    }

    /// References to every payload held, group after group, earliest group
    /// first; nothing is removed.
    pub fn iter<'a>(&'a self) -> (r: Vec<&'a T>)
        ensures
            r@.unref() == all_payloads(self@),
    {
        let ghost s = self@;
        let mut r: Vec<&'a T> = Vec::new();
        let mut i: usize = 0;
        assert(r@.unref() =~= all_payloads(s.take(0)));
        while i < self.actors.len()
            invariant
                i <= self.actors.len(),
                s == self@,
                r@.unref() == all_payloads(s.take(i as int)),
            decreases self.actors.len() - i,
        {
            let group = &self.actors[i];
            let mut j: usize = 0;
            assert(all_payloads(s.take(i as int)) + group.datas@.take(0) =~= all_payloads(
                s.take(i as int),
            ));
            while j < group.datas.len()
                invariant
                    j <= group.datas.len(),
                    r@.unref() == all_payloads(s.take(i as int)) + group.datas@.take(j as int),
                decreases group.datas.len() - j,
            {
                let ghost before = r@;
                r.push(&group.datas[j]);
                assert(r@.unref() =~= before.unref().push(group.datas@[j as int]));
                assert(group.datas@.take(j + 1) =~= group.datas@.take(j as int).push(
                    group.datas@[j as int],
                ));
                j = j + 1;
            }
            assert(s.take(i + 1).drop_last() =~= s.take(i as int));
            assert(group.datas@.take(j as int) =~= group.datas@);
            assert(s[i as int] == group@);
            i = i + 1;
        }
        assert(s.take(s.len() as int) =~= s);
        r
    }

    /// How many groups are held.
    pub fn group_count(&self) -> (r: usize)
        ensures
            r == self@.len(),
    {
        self.actors.len()
    }

    /// The tick of each group, relative to the baseline, earliest first.
    pub fn group_ticks(&self) -> (r: Vec<u32>)
        requires
            self.wf(),
        ensures
            r@.len() == self@.len(),
            forall|i: int| 0 <= i < r@.len() ==> r@[i] == self@[i].0 - self.baseline(),
    {
        let mut r: Vec<u32> = Vec::new();
        let mut i: usize = 0;
        while i < self.actors.len()
            invariant
                self.wf(),
                i <= self.actors.len(),
                r@.len() == i,
                forall|j: int| 0 <= j < i ==> r@[j] == self@[j].0 - self.baseline(),
            decreases self.actors.len() - i,
        {
            assert(self@[i as int] == self.actors[i as int]@);
            r.push(self.actors[i].ticks - self.current_tick);
            i = i + 1;
        }
        r
    }
}

} // verus!
