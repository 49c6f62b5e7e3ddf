use vstd::prelude::*;

use crate::actuator::ActuatorState;
use crate::time::{Date, DateTime, TimeInterval};
use crate::time_slot::{slots_view, TimeSlot, TimeSlotModel};
use crate::utils::Ranked;

verus! {

broadcast use vstd::seq_lib::group_to_multiset_ensures;

/// One occurrence of a time slot on a given day.
#[derive(Clone, Copy, PartialEq, Eq, Debug)]
pub struct ScheduleSlot {
    pub time_interval: TimeInterval,
    pub actuator_state: ActuatorState,
    pub id: u32,
    pub override_id: Option<u32>,
}

/// The occurrence of the slot `e` (an ID and a slot) on day `d`: none where the slot is
/// disabled or does not apply on that day.
pub open spec fn day_entry(e: (u32, TimeSlotModel), d: int) -> Option<ScheduleSlot> {
    if e.1.enabled {
        match e.1.interval_on(d) {
            Some((iv, oid)) => Some(
                ScheduleSlot {
                    time_interval: iv,
                    actuator_state: e.1.actuator_state,
                    id: e.0,
                    override_id: oid,
                },
            ),
            None => None,
        }
    } else {
        None
    }
}

/// The occurrences on day `d` of the first `n` slots, in the order of the slots.
pub open spec fn day_entries(s: Seq<(u32, TimeSlotModel)>, d: int, n: int) -> Seq<ScheduleSlot>
    decreases n,
{
    if n <= 0 {
        Seq::empty()
    } else {
        let prev = day_entries(s, d, n - 1);
        match day_entry(s[n - 1], d) {
            Some(x) => prev.push(x),
            None => prev,
        }
    }
}

/// Whether the occurrences are in the order of their start times.
pub open spec fn sorted_by_start(v: Seq<ScheduleSlot>) -> bool {
    forall|i: int, j: int|
        0 <= i < j < v.len() ==> (#[trigger] v[i]).time_interval.start.rank() <= (
        #[trigger] v[j]).time_interval.start.rank()
}

/// The occurrence of slot `e` on the date of `dt` if it starts at the time of `dt` or later.
pub open spec fn next_candidate(e: (u32, TimeSlotModel), dt: DateTime) -> Option<ScheduleSlot> {
    match day_entry(e, dt.date.days as int) {
        Some(x) => if x.time_interval.start.rank() >= dt.time.rank() {
            Some(x)
        } else {
            None
        },
        None => None,
    }
}

/// Among the first `n` slots, the candidate with the earliest start; on a tie, the earlier slot
/// of the table, which is the one of lowest ID.
pub open spec fn spec_find_next(s: Seq<(u32, TimeSlotModel)>, dt: DateTime, n: int) -> Option<
    ScheduleSlot,
>
    decreases n,
{
    if n <= 0 {
        None
    } else {
        let prev = spec_find_next(s, dt, n - 1);
        match next_candidate(s[n - 1], dt) {
            Some(c) => match prev {
                Some(p) => if c.time_interval.start.rank() >= p.time_interval.start.rank() {
                    prev
                } else {
                    Some(c)
                },
                None => Some(c),
            },
            None => prev,
        }
    }
}

/// The next occurrence is a candidate, starts no later than any other candidate, and is missing
/// only where there is no candidate.
pub proof fn lemma_find_next(s: Seq<(u32, TimeSlotModel)>, dt: DateTime, n: int)
    requires
        0 <= n <= s.len(),
    ensures
        spec_find_next(s, dt, n) matches Some(c) ==> exists|i: int|
            0 <= i < n && next_candidate(s[i], dt) == Some(c) && forall|j: int|
                0 <= j < i && (#[trigger] next_candidate(s[j], dt)) is Some ==> c.time_interval.start.rank()
                    < next_candidate(s[j], dt)->0.time_interval.start.rank(),
        spec_find_next(s, dt, n) matches Some(c) ==> forall|i: int|
            0 <= i < n && (#[trigger] next_candidate(s[i], dt)) is Some ==> c.time_interval.start.rank()
                <= next_candidate(s[i], dt)->0.time_interval.start.rank(),
        spec_find_next(s, dt, n) is None ==> forall|i: int|
            0 <= i < n ==> (#[trigger] next_candidate(s[i], dt)) is None,
    decreases n,
{
    if n > 0 {
        lemma_find_next(s, dt, n - 1);
    }
}

/// The occurrence on the date of `dt` that starts first at its time or later; among those that
/// start together, the one of the earliest slot in the table.
pub fn find_next_timeslot(timeslots: &Vec<(u32, TimeSlot)>, dt: &DateTime) -> (r: Option<
    ScheduleSlot,
>)
    ensures
        r == spec_find_next(slots_view(timeslots@), *dt, timeslots@.len() as int),
        r matches Some(c) ==> exists|i: int|
            0 <= i < timeslots@.len() && next_candidate(slots_view(timeslots@)[i], *dt) == Some(c) && forall|j: int|
                0 <= j < i && (#[trigger] next_candidate(slots_view(timeslots@)[j], *dt)) is Some ==> c.time_interval.start.rank()
                    < next_candidate(slots_view(timeslots@)[j], *dt)->0.time_interval.start.rank(),
        r matches Some(c) ==> forall|i: int|
            0 <= i < timeslots@.len() && (#[trigger] next_candidate(slots_view(timeslots@)[i], *dt)) is Some
                ==> c.time_interval.start.rank() <= next_candidate(slots_view(timeslots@)[i], *dt)->0.time_interval.start.rank(),
        r is None ==> forall|i: int|
            0 <= i < timeslots@.len() ==> (#[trigger] next_candidate(slots_view(timeslots@)[i], *dt)) is None,
{
    proof {
        lemma_find_next(slots_view(timeslots@), *dt, timeslots@.len() as int);
    }
    let mut next_ts: Option<ScheduleSlot> = None;
    let mut i: usize = 0;
    while i < timeslots.len()
        invariant
            i <= timeslots.len(),
            next_ts == spec_find_next(slots_view(timeslots@), *dt, i as int),
        decreases timeslots.len() - i,
    {
        let e = &timeslots[i];
        let cand = match e.1.time_interval_on(dt.date) {
            Some((iv, oid)) => if e.1.enabled && iv.start.rank_of() >= dt.time.rank_of() {
                Some(ScheduleSlot { time_interval: iv, actuator_state: e.1.actuator_state, id: e.0, override_id: oid })
            } else {
                None
            },
            None => None,
        };
        assert(slots_view(timeslots@)[i as int] == (timeslots@[i as int].0, timeslots@[i as int].1@));
        assert(cand == next_candidate(slots_view(timeslots@)[i as int], *dt));
        match cand {
            Some(c) => {
                let replace = match next_ts {
                    Some(p) => c.time_interval.start.rank_of() < p.time_interval.start.rank_of(),
                    None => true,
                };
                if replace {
                    next_ts = Some(c);
                }
            },
            None => {},
        }
        i = i + 1;
    }
    next_ts
}

/// The occurrences of the slots on `date`, in the order of the slots.
fn entries_on(timeslots: &Vec<(u32, TimeSlot)>, date: Date) -> (r: Vec<ScheduleSlot>)
    ensures
        r@ == day_entries(slots_view(timeslots@), date.days as int, timeslots@.len() as int),
{
    let mut out: Vec<ScheduleSlot> = Vec::new();
    let mut i: usize = 0;
    while i < timeslots.len()
        invariant
            i <= timeslots.len(),
            out@ == day_entries(slots_view(timeslots@), date.days as int, i as int),
        decreases timeslots.len() - i,
    {
        let e = &timeslots[i];
        assert(slots_view(timeslots@)[i as int] == (timeslots@[i as int].0, timeslots@[i as int].1@));
        if e.1.enabled {
            match e.1.time_interval_on(date) {
                Some((iv, oid)) => {
                    out.push(ScheduleSlot { time_interval: iv, actuator_state: e.1.actuator_state, id: e.0, override_id: oid });
                },
                None => {},
            }
        }
        i = i + 1;
    }
    out
}

/// Puts `x` after every occurrence that does not start later than it.
fn insert_by_start(v: &mut Vec<ScheduleSlot>, x: ScheduleSlot)
    requires
        sorted_by_start(old(v)@),
    ensures
        sorted_by_start(final(v)@),
        final(v)@.to_multiset() == old(v)@.to_multiset().insert(x),
{
    let mut pos: usize = 0;
    let xr = x.time_interval.start.rank_of();
    while pos < v.len() && v[pos].time_interval.start.rank_of() <= xr
        invariant
            pos <= v.len(),
            xr == x.time_interval.start.rank(),
            sorted_by_start(v@),
            forall|i: int| 0 <= i < pos ==> (#[trigger] v@[i]).time_interval.start.rank() <= xr,
        decreases v.len() - pos,
    {
        pos = pos + 1;
    }
    let ghost before = v@;
    v.insert(pos, x);
    proof {
        assert(v@ == before.insert(pos as int, x));
        assert forall|i: int, j: int| 0 <= i < j < v@.len() implies (#[trigger] v@[i]).time_interval.start.rank()
            <= (#[trigger] v@[j]).time_interval.start.rank() by {
            if i < pos && j < pos {
                assert(v@[i] == before[i] && v@[j] == before[j]);
            } else if i < pos && j == pos {
            } else if i < pos {
                assert(v@[i] == before[i] && v@[j] == before[j - 1]);
            } else if i == pos {
                assert(v@[j] == before[j - 1]);
                assert(pos < before.len());
                assert(before[pos as int].time_interval.start.rank() > xr);
                if j - 1 > pos {
                    assert(before[pos as int].time_interval.start.rank() <= before[j - 1].time_interval.start.rank());
                }
            } else {
                assert(v@[i] == before[i - 1] && v@[j] == before[j - 1]);
            }
        }
    }
}

/// For each of `nb_days` days from `start_date`, the day and its occurrences ordered by start
/// time.
pub fn compute_schedule(timeslots: &Vec<(u32, TimeSlot)>, start_date: Date, nb_days: u32) -> (r: Vec<
    (Date, Vec<ScheduleSlot>),
>)
    requires
        start_date.days + nb_days <= i32::MAX,
    ensures
        r@.len() == nb_days,
        forall|k: int|
            0 <= k < nb_days ==> {
                let (day, slots) = #[trigger] r@[k];
                &&& day.days == start_date.days + k
                &&& sorted_by_start(slots@)
                &&& slots@.to_multiset() == day_entries(
                    slots_view(timeslots@),
                    day.days as int,
                    timeslots@.len() as int,
                ).to_multiset()
            },
{
    let mut schedule: Vec<(Date, Vec<ScheduleSlot>)> = Vec::new();
    let mut k: u32 = 0;
    while k < nb_days
        invariant
            k <= nb_days,
            start_date.days + nb_days <= i32::MAX,
            schedule@.len() == k,
            forall|j: int|
                0 <= j < k ==> {
                    let (day, slots) = #[trigger] schedule@[j];
                    &&& day.days == start_date.days + j
                    &&& sorted_by_start(slots@)
                    &&& slots@.to_multiset() == day_entries(
                        slots_view(timeslots@),
                        day.days as int,
                        timeslots@.len() as int,
                    ).to_multiset()
                },
        decreases nb_days - k,
    {
        let day = Date { days: (start_date.days as i64 + k as i64) as i32 };
        let entries = entries_on(timeslots, day);
        let mut sorted: Vec<ScheduleSlot> = Vec::new();
        let mut i: usize = 0;
        while i < entries.len()
            invariant
                i <= entries.len(),
                sorted_by_start(sorted@),
                sorted@.to_multiset() == entries@.subrange(0, i as int).to_multiset(),
            decreases entries.len() - i,
        {
            insert_by_start(&mut sorted, entries[i]);
            assert(entries@.subrange(0, i + 1) =~= entries@.subrange(0, i as int).push(entries@[i as int]));
            i = i + 1;
        }
        assert(entries@.subrange(0, entries@.len() as int) =~= entries@);
        let ghost prev = schedule@;
        schedule.push((day, sorted));
        proof {
            assert forall|j: int| 0 <= j < k + 1 implies {
                let (day, slots) = #[trigger] schedule@[j];
                &&& day.days == start_date.days + j
                &&& sorted_by_start(slots@)
                &&& slots@.to_multiset() == day_entries(
                    slots_view(timeslots@),
                    day.days as int,
                    timeslots@.len() as int,
                ).to_multiset()
            } by {
                if j < k {
                    assert(schedule@[j] == prev[j]);
                }
            }
        }
        k = k + 1;
    }
    schedule
}

} // verus!

verus! {

/// The entries of a day are the occurrences of the slots on that day.
pub proof fn lemma_day_entries(s: Seq<(u32, TimeSlotModel)>, d: int, n: int)
    requires
        0 <= n <= s.len(),
    ensures
        forall|i: int| 0 <= i < n && (#[trigger] day_entry(s[i], d)) is Some ==> day_entries(s, d, n).contains(day_entry(s[i], d)->0),
        forall|k: int| 0 <= k < day_entries(s, d, n).len() ==> exists|i: int|
            0 <= i < n && day_entry(s[i], d) == Some(#[trigger] day_entries(s, d, n)[k]),
    decreases n,
{
    if n > 0 {
        lemma_day_entries(s, d, n - 1);
        let prev = day_entries(s, d, n - 1);
        let cur = day_entries(s, d, n);
        assert forall|i: int| 0 <= i < n && (#[trigger] day_entry(s[i], d)) is Some implies cur.contains(day_entry(s[i], d)->0) by {
            if i < n - 1 {
                let x = day_entry(s[i], d)->0;
                let k = choose|k: int| 0 <= k < prev.len() && prev[k] == x;
                assert(cur[k] == x);
            } else {
                assert(cur[cur.len() - 1] == day_entry(s[i], d)->0);
            }
        }
        assert forall|k: int| 0 <= k < cur.len() implies exists|i: int| 0 <= i < n && day_entry(s[i], d) == Some(#[trigger] cur[k]) by {
            if k < prev.len() {
                assert(cur[k] == prev[k]);
                let i = choose|i: int| 0 <= i < n - 1 && day_entry(s[i], d) == Some(prev[k]);
            } else {
                assert(day_entry(s[n - 1], d) == Some(cur[k]));
            }
        }
    }
}

/// On a day that an override of an enabled slot covers, the day's schedule holds an entry of
/// that slot from an override, and no entry of that slot from its base period; when the slot's
/// overrides share no day, the entry is that of the covering override.
pub proof fn lemma_schedule_override_wins(s: Seq<(u32, TimeSlotModel)>, d: int, i: int, k: int)
    requires
        0 <= i < s.len(),
        forall|a: int, b: int| 0 <= a < b < s.len() ==> (#[trigger] s[a]).0 < (#[trigger] s[b]).0,
        s[i].1.enabled,
        0 <= k < s[i].1.time_override.len(),
        s[i].1.time_override[k].1.covers(d),
    ensures
        day_entry(s[i], d) matches Some(x) && x.id == s[i].0 && x.override_id is Some && day_entries(
            s,
            d,
            s.len() as int,
        ).contains(x),
        forall|m: int|
            0 <= m < day_entries(s, d, s.len() as int).len() && (#[trigger] day_entries(s, d, s.len() as int)[m]).id
                == s[i].0 ==> day_entries(s, d, s.len() as int)[m].override_id is Some,
        (forall|p: int, q: int|
            0 <= p < s[i].1.time_override.len() && 0 <= q < s[i].1.time_override.len() && p != q
                ==> !(#[trigger] s[i].1.time_override[p]).1.spec_overlaps_dates((#[trigger] s[i].1.time_override[q]).1))
            ==> day_entry(s[i], d) == Some(
            ScheduleSlot {
                time_interval: s[i].1.time_override[k].1.time_interval,
                actuator_state: s[i].1.actuator_state,
                id: s[i].0,
                override_id: Some(s[i].1.time_override[k].0),
            },
        ),
{
    crate::time_slot::lemma_override_wins(s[i].1, d, k);
    lemma_day_entries(s, d, s.len() as int);
    let e = day_entries(s, d, s.len() as int);
    assert forall|m: int| 0 <= m < e.len() && (#[trigger] e[m]).id == s[i].0 implies e[m].override_id is Some by {
        let j = choose|j: int| 0 <= j < s.len() && day_entry(s[j], d) == Some(e[m]);
        assert(s[j].0 == s[i].0);
        if j < i {
            assert(s[j].0 < s[i].0);
        } else if j > i {
            assert(s[i].0 < s[j].0);
        }
    }
}

} // verus!
