use vstd::prelude::*;

use crate::actuator::ActuatorState;
use crate::time::{lemma_weekday_shift, weekday_index, Date, DateRange, TimeInterval, WeekdaySet};
use crate::utils::{Ranked, ValidCheck};

verus! {

/// A time of day, a range of dates, and the weekdays of that range on which it applies.
#[derive(Clone, Copy, PartialEq, Eq, Debug)]
pub struct TimePeriod {
    pub time_interval: TimeInterval,
    pub date_range: DateRange,
    pub days: WeekdaySet,
}

impl TimePeriod {
    /// Whether the period applies on the day numbered `d`.
    pub open spec fn covers(self, d: int) -> bool {
        &&& self.date_range.start.days <= d <= self.date_range.end.days
        &&& self.days.has_day(weekday_index(d))
    }

    /// Whether some day is covered by both periods.
    pub open spec fn spec_overlaps_dates(self, other: TimePeriod) -> bool {
        exists|d: int| self.covers(d) && other.covers(d)
    }

    /// Whether the periods share a day and their times of day intersect.
    pub open spec fn spec_overlaps(self, other: TimePeriod) -> bool {
        self.spec_overlaps_dates(other) && self.time_interval.spec_overlaps(&other.time_interval)
    }

    pub fn covers_date(&self, date: Date) -> (r: bool)
        ensures
            r == self.covers(date.days as int),
    {
        let idx = ((date.days as i64 - 1) % 7 + 7) % 7;
        proof {
            lemma_weekday_shift(date.days as int, 0);
        }
        self.date_range.contains(&date) && self.days.has(idx as u32)
    }

    pub fn overlaps_dates(&self, other: &TimePeriod) -> (r: bool)
        requires
            self.days.is_well_formed(),
            other.days.is_well_formed(),
        ensures
            r == self.spec_overlaps_dates(*other),
    {
        match self.date_range.intersection(&other.date_range) {
            None => {
                assert forall|d: int| !(self.covers(d) && #[trigger] other.covers(d)) by {}
                false
            },
            Some(range) => {
                let ghost s = range.start.days as int;
                if self.days.is_all() && other.days.is_all() {
                    proof {
                        lemma_weekday_shift(s, 0);
                        assert(self.covers(s) && other.covers(s));
                    }
                    true
                } else {
                    let ws = range.weekday_set();
                    let both = ws.intersection(&self.days).intersection(&other.days);
                    let r = !both.is_empty();
                    proof {
                        if r {
                            let w = choose|w: int| #[trigger] both.has_day(w);
                            assert(ws.has_day(w));
                            let d = choose|d: int| range.start.days <= d <= range.end.days && weekday_index(d) == w;
                            assert(self.covers(d) && other.covers(d));
                        } else {
                            assert forall|d: int| !(self.covers(d) && #[trigger] other.covers(d)) by {
                                if self.covers(d) && other.covers(d) {
                                    let w = weekday_index(d);
                                    assert(range_has(range, d));
                                    assert(ws.has_day(w));
                                    assert(both.has_day(w));
                                }
                            }
                        }
                    }
                    r
                }
            },
        }
    }

    pub fn overlaps(&self, other: &TimePeriod) -> (r: bool)
        requires
            self.days.is_well_formed(),
            other.days.is_well_formed(),
        ensures
            r == self.spec_overlaps(*other),
    {
        self.overlaps_dates(other) && self.time_interval.overlaps(&other.time_interval)
    }
}

spec fn range_has(range: DateRange, d: int) -> bool {
    range.start.days <= d <= range.end.days
}

impl ValidCheck for TimePeriod {
    open spec fn is_valid(&self) -> bool {
        &&& self.time_interval.is_valid()
        &&& self.date_range.is_valid()
        &&& self.days.is_well_formed()
        &&& !self.days.spec_is_empty()
    }

    fn valid(&self) -> (r: bool) {
        self.time_interval.valid() && self.date_range.valid() && self.days.bits < 128
            && !self.days.is_empty()
    }
}

/// What a time slot is, as contracts see it.
pub struct TimeSlotModel {
    pub enabled: bool,
    pub actuator_state: ActuatorState,
    pub time_period: TimePeriod,
    pub time_override: Seq<(u32, TimePeriod)>,
}

/// A rule of the schedule: a state to hold during a base period, and overrides that replace the
/// base period on the dates they cover.
#[derive(Clone, Debug)]
pub struct TimeSlot {
    pub enabled: bool,
    pub actuator_state: ActuatorState,
    pub time_period: TimePeriod,
    pub time_override: Vec<(u32, TimePeriod)>,
}

impl View for TimeSlot {
    type V = TimeSlotModel;

    open spec fn view(&self) -> TimeSlotModel {
        TimeSlotModel {
            enabled: self.enabled,
            actuator_state: self.actuator_state,
            time_period: self.time_period,
            time_override: self.time_override@,
        }
    }
}

/// The slots of a table, each seen through its model.
pub open spec fn slots_view(s: Seq<(u32, TimeSlot)>) -> Seq<(u32, TimeSlotModel)> {
    s.map_values(|e: (u32, TimeSlot)| (e.0, e.1@))
}

/// Index of the first override from `i` on that covers day `d`.
pub open spec fn first_cover(s: Seq<(u32, TimePeriod)>, d: int, i: int) -> Option<int>
    decreases s.len() - i,
{
    if i < 0 || i >= s.len() {
        None
    } else if s[i].1.covers(d) {
        Some(i)
    } else {
        first_cover(s, d, i + 1)
    }
}

pub proof fn lemma_first_cover(s: Seq<(u32, TimePeriod)>, d: int, i: int)
    requires
        0 <= i,
    ensures
        first_cover(s, d, i) matches Some(j) ==> i <= j < s.len() && s[j].1.covers(d),
        first_cover(s, d, i) is None ==> forall|j: int| i <= j < s.len() ==> !#[trigger] s[j].1.covers(d),
    decreases s.len() - i,
{
    if i < s.len() && !s[i].1.covers(d) {
        lemma_first_cover(s, d, i + 1);
    }
}

impl TimeSlotModel {
    /// Whether every stored period has a well-formed set of weekdays.
    pub open spec fn days_well_formed(self) -> bool {
        &&& self.time_period.days.is_well_formed()
        &&& forall|i: int| 0 <= i < self.time_override.len() ==> (#[trigger] self.time_override[i]).1.days.is_well_formed()
    }

    /// The time interval that the slot takes on day `d`, and the override that gives it.
    pub open spec fn interval_on(self, d: int) -> Option<(TimeInterval, Option<u32>)> {
        match first_cover(self.time_override, d, 0) {
            Some(i) => Some((self.time_override[i].1.time_interval, Some(self.time_override[i].0))),
            None => if self.time_period.covers(d) {
                Some((self.time_period.time_interval, None))
            } else {
                None
            },
        }
    }

    /// Whether the slot collides with a candidate period: its base period shares a day with
    /// the candidate, and either the base times of day intersect or an override collides with
    /// the candidate.
    pub open spec fn overlaps_period(self, p: TimePeriod) -> bool {
        &&& self.time_period.spec_overlaps_dates(p)
        &&& (self.time_period.time_interval.spec_overlaps(&p.time_interval) || exists|i: int|
            0 <= i < self.time_override.len() && (#[trigger] self.time_override[i]).1.spec_overlaps(p))
    }
}

/// An override that covers a day wins over the base period on it: the slot takes the time
/// interval of an override there, and of that very override when the overrides share no day.
pub proof fn lemma_override_wins(slot: TimeSlotModel, d: int, k: int)
    requires
        0 <= k < slot.time_override.len(),
        slot.time_override[k].1.covers(d),
    ensures
        slot.interval_on(d) matches Some((_, oid)) && oid is Some,
        (forall|i: int, j: int|
            0 <= i < slot.time_override.len() && 0 <= j < slot.time_override.len() && i != j
                ==> !(#[trigger] slot.time_override[i]).1.spec_overlaps_dates((#[trigger] slot.time_override[j]).1))
            ==> slot.interval_on(d) == Some((slot.time_override[k].1.time_interval, Some(slot.time_override[k].0))),
{
    lemma_first_cover(slot.time_override, d, 0);
    if let Some(j) = first_cover(slot.time_override, d, 0) {
        if j != k {
            assert(slot.time_override[j].1.covers(d) && slot.time_override[k].1.covers(d));
            assert(slot.time_override[j].1.spec_overlaps_dates(slot.time_override[k].1));
        }
    }
}

impl TimeSlot {
    pub fn new(enabled: bool, actuator_state: ActuatorState, time_period: TimePeriod) -> (r: TimeSlot)
        ensures
            r@ == (TimeSlotModel {
                enabled,
                actuator_state,
                time_period,
                time_override: Seq::empty(),
            }),
    {
        TimeSlot { enabled, actuator_state, time_period, time_override: Vec::new() }
    }

    /// A copy of the slot.
    pub fn duplicate(&self) -> (r: TimeSlot)
        ensures
            r@ == self@,
    {
        let mut ov: Vec<(u32, TimePeriod)> = Vec::new();
        let mut i: usize = 0;
        while i < self.time_override.len()
            invariant
                i <= self.time_override.len(),
                ov@ == self.time_override@.subrange(0, i as int),
            decreases self.time_override.len() - i,
        {
            ov.push(self.time_override[i]);
            i = i + 1;
            assert(ov@ =~= self.time_override@.subrange(0, i as int));
        }
        assert(ov@ =~= self.time_override@);
        TimeSlot {
            enabled: self.enabled,
            actuator_state: self.actuator_state,
            time_period: self.time_period,
            time_override: ov,
        }
    }

    /// The time interval that the slot takes on `date`, with the ID of the override that gives
    /// it (none where the base period does).
    pub fn time_interval_on(&self, date: Date) -> (r: Option<(TimeInterval, Option<u32>)>)
        ensures
            r == self@.interval_on(date.days as int),
    {
        let ghost d = date.days as int;
        let mut i: usize = 0;
        while i < self.time_override.len()
            invariant
                i <= self.time_override.len(),
                d == date.days as int,
                first_cover(self.time_override@, d, 0) == first_cover(self.time_override@, d, i as int),
            decreases self.time_override.len() - i,
        {
            let ov = self.time_override[i];
            if ov.1.covers_date(date) {
                assert(first_cover(self.time_override@, d, i as int) == Some(i as int));
                return Some((ov.1.time_interval, Some(ov.0)));
            }
            assert(first_cover(self.time_override@, d, i as int) == first_cover(
                self.time_override@,
                d,
                i + 1,
            ));
            i = i + 1;
        }
        if self.time_period.covers_date(date) {
            Some((self.time_period.time_interval, None))
        } else {
            None
        }
    }

    /// Whether the slot collides with a candidate period (see `TimeSlotModel::overlaps_period`).
    pub fn overlaps(&self, p: &TimePeriod) -> (r: bool)
        requires
            self@.days_well_formed(),
            p.days.is_well_formed(),
        ensures
            r == self@.overlaps_period(*p),
    {
        if !self.time_period.overlaps_dates(p) {
            return false;
        }
        if self.time_period.time_interval.overlaps(&p.time_interval) {
            return true;
        }
        let mut i: usize = 0;
        while i < self.time_override.len()
            invariant
                i <= self.time_override.len(),
                self@.days_well_formed(),
                p.days.is_well_formed(),
                self.time_period.spec_overlaps_dates(*p),
                !self.time_period.time_interval.spec_overlaps(&p.time_interval),
                forall|j: int| 0 <= j < i ==> !(#[trigger] self.time_override@[j]).1.spec_overlaps(*p),
            decreases self.time_override.len() - i,
        {
            let ov = self.time_override[i];
            assert(self@.time_override[i as int].1.days.is_well_formed());
            if ov.1.overlaps(p) {
                assert(self@.time_override[i as int].1.spec_overlaps(*p));
                return true;
            }
            i = i + 1;
        }
        false
    }
}

} // verus!
