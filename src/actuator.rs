use vstd::prelude::*;

use crate::rpc::{Error, InvalArgError};
use crate::schedule::{day_entry, find_next_timeslot, lemma_find_next, next_candidate, spec_find_next};
use crate::time::{Date, DateRange, DateTime, Time, TimeInterval, EMPTY_DAYS, MAX_DAYS};
use crate::time_slot::{first_cover, lemma_first_cover, slots_view, TimePeriod, TimeSlot, TimeSlotModel};
use crate::utils::{first_index, lemma_first_index, Ranked, ValidCheck};


verus! {

/// The kind of an actuator. The bounds of a float actuator are given as keys of the total order
/// of `f64` (see `ActuatorState`).
#[derive(Clone, Copy, PartialEq, Eq, Structural, Debug)]
pub enum ActuatorType {
    Toggle,
    FloatValue { min: i64, max: i64 },
}

/// A state of an actuator: on or off, or an analogue value. An analogue value is held as its key
/// in the total order of `f64` (the order of `f64::total_cmp`), so that comparing keys compares
/// the values.
#[derive(Clone, Copy, PartialEq, Eq, Structural, Debug)]
pub enum ActuatorState {
    Toggle(bool),
    FloatValue(i64),
}

/// Whether a state can be taken by an actuator of the given type.
pub open spec fn state_fits(actuator_type: ActuatorType, state: ActuatorState) -> bool {
    match actuator_type {
        ActuatorType::Toggle => state is Toggle,
        ActuatorType::FloatValue { min, max } => match state {
            ActuatorState::FloatValue(v) => min <= v <= max,
            ActuatorState::Toggle(_) => false,
        },
    }
}

/// An actuator's name and type.
#[derive(Clone, Debug)]
pub struct ActuatorInfo {
    pub name: String,
    pub actuator_type: ActuatorType,
}

impl ActuatorInfo {
    pub open spec fn spec_valid(&self) -> bool {
        match self.actuator_type {
            ActuatorType::Toggle => true,
            ActuatorType::FloatValue { min, max } => min < max,
        }
    }

    pub fn valid(&self) -> (r: bool)
        ensures
            r == self.spec_valid(),
    {
        match self.actuator_type {
            ActuatorType::Toggle => true,
            ActuatorType::FloatValue { min, max } => min < max,
        }
    }

    pub fn valid_state(&self, state: &ActuatorState) -> (r: bool)
        ensures
            r == state_fits(self.actuator_type, *state),
    {
        match self.actuator_type {
            ActuatorType::Toggle => match state {
                ActuatorState::Toggle(_) => true,
                _ => false,
            },
            ActuatorType::FloatValue { min, max } => match state {
                ActuatorState::FloatValue(value) => min <= *value && *value <= max,
                _ => false,
            },
        }
    }
}

} // verus!

verus! {

/// Which rule decides the actuator's state now.
#[derive(Clone, Copy, PartialEq, Eq, Structural, Debug)]
pub enum ActiveTimeSlotState {
    /// A slot (possibly through one of its overrides) holds the actuator.
    TimeSlotActive { id: u32, override_id: Option<u32> },
    /// The default state holds the actuator, until the slot named here starts (if any).
    DefaultStateActive { next_id: Option<u32>, next_override_id: Option<u32> },
}

/// The rule in force, when it stops being in force, and the state that it gives.
#[derive(Clone, Copy, PartialEq, Eq, Structural, Debug)]
pub struct ActiveTimeSlot {
    pub state: ActiveTimeSlotState,
    pub end_time: Time,
    pub actuator_state: ActuatorState,
}

pub open spec fn active_slot(id: u32, override_id: Option<u32>, end_time: Time, actuator_state: ActuatorState) -> ActiveTimeSlot {
    ActiveTimeSlot { state: ActiveTimeSlotState::TimeSlotActive { id, override_id }, end_time, actuator_state }
}

pub open spec fn active_default(actuator_state: ActuatorState) -> ActiveTimeSlot {
    ActiveTimeSlot {
        state: ActiveTimeSlotState::DefaultStateActive { next_id: None, next_override_id: None },
        end_time: Time { hour: 3, minute: 59 },
        actuator_state,
    }
}

pub open spec fn active_default_until(next_id: u32, next_override_id: Option<u32>, end_time: Time, actuator_state: ActuatorState) -> ActiveTimeSlot {
    ActiveTimeSlot {
        state: ActiveTimeSlotState::DefaultStateActive { next_id: Some(next_id), next_override_id },
        end_time,
        actuator_state,
    }
}

/// The rule in force at `now` when it is found afresh: the slot starting exactly at `now`, or
/// else the default state until the next slot of the day starts, or until the end of the day.
pub open spec fn spec_compute(now: DateTime, s: Seq<(u32, TimeSlotModel)>, default_state: ActuatorState) -> ActiveTimeSlot {
    match spec_find_next(s, now, s.len() as int) {
        Some(slot) => if slot.time_interval.start == now.time {
            active_slot(slot.id, slot.override_id, slot.time_interval.end, slot.actuator_state)
        } else {
            active_default_until(slot.id, slot.override_id, slot.time_interval.start, default_state)
        },
        None => active_default(default_state),
    }
}

/// The rule in force after the slot `ts` of ID `id` was added (or enabled) at `now`. A disabled
/// slot leaves the rule as it is.
pub open spec fn spec_update_added(a: ActiveTimeSlot, ts: TimeSlotModel, id: u32, now: DateTime) -> ActiveTimeSlot {
    if !ts.enabled {
        a
    } else {
        spec_update_added_enabled(a, ts, id, now)
    }
}

/// The rule in force after the enabled slot `ts` of ID `id` was added at `now`: it becomes the
/// rule if it runs now, or the next slot if it starts before the rule in force ends.
pub open spec fn spec_update_added_enabled(a: ActiveTimeSlot, ts: TimeSlotModel, id: u32, now: DateTime) -> ActiveTimeSlot {
    match a.state {
        ActiveTimeSlotState::DefaultStateActive { .. } => match ts.interval_on(now.date.days as int) {
            Some((iv, oid)) => if iv.spec_contains(now.time) {
                active_slot(id, oid, iv.end, ts.actuator_state)
            } else if now.time.rank() < iv.start.rank() && iv.start.rank() < a.end_time.rank() {
                active_default_until(id, oid, iv.start, a.actuator_state)
            } else {
                a
            },
            None => a,
        },
        _ => a,
    }
}

/// Whether the rule in force names the slot `id`, as the one active or as the next one.
pub open spec fn names_slot(a: ActiveTimeSlot, id: u32) -> bool {
    match a.state {
        ActiveTimeSlotState::TimeSlotActive { id: aid, .. } => aid == id,
        ActiveTimeSlotState::DefaultStateActive { next_id, .. } => next_id == Some(id),
    }
}

/// The rule in force after the slot `id` was removed (or disabled) at `now`.
pub open spec fn spec_update_removed(a: ActiveTimeSlot, id: u32, s: Seq<(u32, TimeSlotModel)>, default_state: ActuatorState, now: DateTime) -> ActiveTimeSlot {
    if names_slot(a, id) {
        spec_compute(now, s, default_state)
    } else {
        a
    }
}

/// The rule in force after the slot `ts` of ID `id` was changed at `now`. A disabled slot is
/// handled as a removed one.
pub open spec fn spec_update_modified(a: ActiveTimeSlot, ts: TimeSlotModel, id: u32, s: Seq<(u32, TimeSlotModel)>, default_state: ActuatorState, now: DateTime) -> ActiveTimeSlot {
    if !ts.enabled {
        spec_update_removed(a, id, s, default_state, now)
    } else {
        spec_update_modified_enabled(a, ts, id, s, default_state, now)
    }
}

/// The rule in force after the enabled slot `ts` of ID `id` was changed at `now`.
pub open spec fn spec_update_modified_enabled(a: ActiveTimeSlot, ts: TimeSlotModel, id: u32, s: Seq<(u32, TimeSlotModel)>, default_state: ActuatorState, now: DateTime) -> ActiveTimeSlot {
    match ts.interval_on(now.date.days as int) {
        Some((iv, oid)) => if iv.spec_contains(now.time) {
            active_slot(id, oid, iv.end, ts.actuator_state)
        } else {
            match a.state {
                ActiveTimeSlotState::TimeSlotActive { id: aid, .. } => if aid == id {
                    spec_compute(now, s, default_state)
                } else {
                    a
                },
                ActiveTimeSlotState::DefaultStateActive { next_id, .. } => if now.time.rank() < iv.start.rank()
                    && iv.start.rank() < a.end_time.rank() {
                    active_default_until(id, oid, iv.start, a.actuator_state)
                } else if next_id == Some(id) {
                    spec_compute(now, s, default_state)
                } else {
                    a
                },
            }
        },
        None => if names_slot(a, id) {
            spec_compute(now, s, default_state)
        } else {
            a
        },
    }
}

impl ActiveTimeSlot {
    pub fn timeslot(id: u32, override_id: Option<u32>, end_time: Time, actuator_state: ActuatorState) -> (r: ActiveTimeSlot)
        ensures
            r == active_slot(id, override_id, end_time, actuator_state),
    {
        ActiveTimeSlot { state: ActiveTimeSlotState::TimeSlotActive { id, override_id }, end_time, actuator_state }
    }

    pub fn default_state(actuator_state: ActuatorState) -> (r: ActiveTimeSlot)
        ensures
            r == active_default(actuator_state),
    {
        ActiveTimeSlot {
            state: ActiveTimeSlotState::DefaultStateActive { next_id: None, next_override_id: None },
            end_time: Time::max_value(),
            actuator_state,
        }
    }

    pub fn default_state_until(next_id: u32, next_override_id: Option<u32>, end_time: Time, actuator_state: ActuatorState) -> (r: ActiveTimeSlot)
        ensures
            r == active_default_until(next_id, next_override_id, end_time, actuator_state),
    {
        ActiveTimeSlot {
            state: ActiveTimeSlotState::DefaultStateActive { next_id: Some(next_id), next_override_id },
            end_time,
            actuator_state,
        }
    }

    pub fn compute(now: &DateTime, timeslots: &Vec<(u32, TimeSlot)>, default_state: ActuatorState) -> (r: ActiveTimeSlot)
        ensures
            r == spec_compute(*now, slots_view(timeslots@), default_state),
    {
        match find_next_timeslot(timeslots, now) {
            Some(slot) => if slot.time_interval.start == now.time {
                Self::timeslot(slot.id, slot.override_id, slot.time_interval.end, slot.actuator_state)
            } else {
                Self::default_state_until(slot.id, slot.override_id, slot.time_interval.start, default_state)
            },
            None => Self::default_state(default_state),
        }
    }

    pub fn update_timeslot_added(&self, timeslot: &TimeSlot, id: u32, now: &DateTime) -> (r: ActiveTimeSlot)
        ensures
            r == spec_update_added(*self, timeslot@, id, *now),
    {
        if !timeslot.enabled {
            return *self;
        }
        match self.state {
            ActiveTimeSlotState::DefaultStateActive { .. } => match timeslot.time_interval_on(now.date) {
                Some((iv, oid)) => if iv.contains(&now.time) {
                    Self::timeslot(id, oid, iv.end, timeslot.actuator_state)
                } else if now.time.rank_of() < iv.start.rank_of() && iv.start.rank_of() < self.end_time.rank_of() {
                    Self::default_state_until(id, oid, iv.start, self.actuator_state)
                } else {
                    *self
                },
                None => *self,
            },
            _ => *self,
        }
    }

    fn names(&self, id: u32) -> (r: bool)
        ensures
            r == names_slot(*self, id),
    {
        match self.state {
            ActiveTimeSlotState::TimeSlotActive { id: aid, .. } => aid == id,
            ActiveTimeSlotState::DefaultStateActive { next_id, .. } => match next_id {
                Some(n) => n == id,
                None => false,
            },
        }
    }

    pub fn update_timeslot_removed(&self, id: u32, timeslots: &Vec<(u32, TimeSlot)>, default_state: ActuatorState, now: &DateTime) -> (r: ActiveTimeSlot)
        ensures
            r == spec_update_removed(*self, id, slots_view(timeslots@), default_state, *now),
    {
        if self.names(id) {
            Self::compute(now, timeslots, default_state)
        } else {
            *self
        }
    }

    pub fn update_timeslot_modified(&self, timeslot: &TimeSlot, id: u32, timeslots: &Vec<(u32, TimeSlot)>, default_state: ActuatorState, now: &DateTime) -> (r: ActiveTimeSlot)
        ensures
            r == spec_update_modified(*self, timeslot@, id, slots_view(timeslots@), default_state, *now),
    {
        if !timeslot.enabled {
            return self.update_timeslot_removed(id, timeslots, default_state, now);
        }
        match timeslot.time_interval_on(now.date) {
            Some((iv, oid)) => if iv.contains(&now.time) {
                Self::timeslot(id, oid, iv.end, timeslot.actuator_state)
            } else {
                match self.state {
                    ActiveTimeSlotState::TimeSlotActive { id: aid, .. } => if aid == id {
                        Self::compute(now, timeslots, default_state)
                    } else {
                        *self
                    },
                    ActiveTimeSlotState::DefaultStateActive { next_id, .. } => if now.time.rank_of() < iv.start.rank_of()
                        && iv.start.rank_of() < self.end_time.rank_of() {
                        Self::default_state_until(id, oid, iv.start, self.actuator_state)
                    } else if self.names(id) {
                        Self::compute(now, timeslots, default_state)
                    } else {
                        *self
                    },
                }
            },
            None => if self.names(id) {
                Self::compute(now, timeslots, default_state)
            } else {
                *self
            },
        }
    }
}

} // verus!

verus! {

pub open spec fn slot_id_is(id: u32) -> spec_fn((u32, TimeSlotModel)) -> bool {
    |e: (u32, TimeSlotModel)| e.0 == id
}

pub open spec fn slot_collides(p: TimePeriod, except: Option<u32>) -> spec_fn((u32, TimeSlotModel)) -> bool {
    |e: (u32, TimeSlotModel)| Some(e.0) != except && e.1.overlaps_period(p)
}

pub open spec fn override_id_is(id: u32) -> spec_fn((u32, TimePeriod)) -> bool {
    |e: (u32, TimePeriod)| e.0 == id
}

pub open spec fn override_shares_day(p: TimePeriod) -> spec_fn((u32, TimePeriod)) -> bool {
    |e: (u32, TimePeriod)| e.1.spec_overlaps_dates(p)
}

/// Index of the slot of ID `id`.
pub open spec fn find_slot(s: Seq<(u32, TimeSlotModel)>, id: u32) -> Option<int> {
    first_index(s, slot_id_is(id), 0)
}

/// Index of the first slot, other than the one of ID `except`, that collides with `p`.
pub open spec fn first_overlap(s: Seq<(u32, TimeSlotModel)>, p: TimePeriod, except: Option<u32>) -> Option<int> {
    first_index(s, slot_collides(p, except), 0)
}

/// Index of the override of ID `id`.
pub open spec fn find_override(s: Seq<(u32, TimePeriod)>, id: u32) -> Option<int> {
    first_index(s, override_id_is(id), 0)
}

/// Index of the first override that shares a day with `p`.
pub open spec fn first_date_overlap(s: Seq<(u32, TimePeriod)>, p: TimePeriod) -> Option<int> {
    first_index(s, override_shares_day(p), 0)
}

pub open spec fn slot_meets(x: TimeSlotModel, id: u32) -> spec_fn((u32, TimeSlotModel)) -> bool {
    |e: (u32, TimeSlotModel)| e.0 != id && slots_overlap(x, e.1)
}

/// Index of the first slot, other than the one of ID `id`, that collides with the slot `x`.
pub open spec fn first_collision(s: Seq<(u32, TimeSlotModel)>, x: TimeSlotModel, id: u32) -> Option<int> {
    first_index(s, slot_meets(x, id), 0)
}

fn find_slot_index(timeslots: &Vec<(u32, TimeSlot)>, id: u32) -> (r: Option<usize>)
    ensures
        match r {
            Some(i) => find_slot(slots_view(timeslots@), id) == Some(i as int) && i < timeslots@.len()
                && timeslots@[i as int].0 == id,
            None => find_slot(slots_view(timeslots@), id) is None,
        },
{
    let ghost sv = slots_view(timeslots@);
    let mut i: usize = 0;
    while i < timeslots.len()
        invariant
            i <= timeslots.len(),
            sv == slots_view(timeslots@),
            find_slot(sv, id) == first_index(sv, slot_id_is(id), i as int),
        decreases timeslots.len() - i,
    {
        assert(sv[i as int] == (timeslots@[i as int].0, timeslots@[i as int].1@));
        if timeslots[i].0 == id {
            return Some(i);
        }
        i = i + 1;
    }
    None
}

fn find_overlap_index(timeslots: &Vec<(u32, TimeSlot)>, p: &TimePeriod, except: Option<u32>) -> (r: Option<usize>)
    requires
        p.days.is_well_formed(),
        forall|i: int| 0 <= i < timeslots@.len() ==> (#[trigger] timeslots@[i]).1@.days_well_formed(),
    ensures
        match r {
            Some(i) => first_overlap(slots_view(timeslots@), *p, except) == Some(i as int) && i < timeslots@.len(),
            None => first_overlap(slots_view(timeslots@), *p, except) is None,
        },
{
    let ghost sv = slots_view(timeslots@);
    let mut i: usize = 0;
    while i < timeslots.len()
        invariant
            i <= timeslots.len(),
            sv == slots_view(timeslots@),
            p.days.is_well_formed(),
            forall|i: int| 0 <= i < timeslots@.len() ==> (#[trigger] timeslots@[i]).1@.days_well_formed(),
            first_overlap(sv, *p, except) == first_index(sv, slot_collides(*p, except), i as int),
        decreases timeslots.len() - i,
    {
        assert(sv[i as int] == (timeslots@[i as int].0, timeslots@[i as int].1@));
        let e = &timeslots[i];
        let skip = match except {
            Some(x) => x == e.0,
            None => false,
        };
        if !skip && e.1.overlaps(p) {
            return Some(i);
        }
        i = i + 1;
    }
    None
}

/// Whether two slots collide (see `slots_overlap`).
pub fn slots_collide(a: &TimeSlot, b: &TimeSlot) -> (r: bool)
    requires
        a@.days_well_formed(),
        b@.days_well_formed(),
    ensures
        r == slots_overlap(a@, b@),
{
    proof {
        lemma_dates_sym(a@.time_period, b@.time_period);
    }
    a.overlaps(&b.time_period) || b.overlaps(&a.time_period)
}

fn find_collision_index(timeslots: &Vec<(u32, TimeSlot)>, x: &TimeSlot, id: u32) -> (r: Option<usize>)
    requires
        x@.days_well_formed(),
        forall|i: int| 0 <= i < timeslots@.len() ==> (#[trigger] timeslots@[i]).1@.days_well_formed(),
    ensures
        match r {
            Some(i) => first_collision(slots_view(timeslots@), x@, id) == Some(i as int) && i < timeslots@.len(),
            None => first_collision(slots_view(timeslots@), x@, id) is None,
        },
{
    let ghost sv = slots_view(timeslots@);
    let mut i: usize = 0;
    while i < timeslots.len()
        invariant
            i <= timeslots.len(),
            sv == slots_view(timeslots@),
            x@.days_well_formed(),
            forall|i: int| 0 <= i < timeslots@.len() ==> (#[trigger] timeslots@[i]).1@.days_well_formed(),
            first_collision(sv, x@, id) == first_index(sv, slot_meets(x@, id), i as int),
        decreases timeslots.len() - i,
    {
        assert(sv[i as int] == (timeslots@[i as int].0, timeslots@[i as int].1@));
        let e = &timeslots[i];
        if e.0 != id && slots_collide(x, &e.1) {
            return Some(i);
        }
        i = i + 1;
    }
    None
}

fn find_override_index(ov: &Vec<(u32, TimePeriod)>, id: u32) -> (r: Option<usize>)
    ensures
        match r {
            Some(i) => find_override(ov@, id) == Some(i as int) && i < ov@.len(),
            None => find_override(ov@, id) is None,
        },
{
    let mut i: usize = 0;
    while i < ov.len()
        invariant
            i <= ov.len(),
            find_override(ov@, id) == first_index(ov@, override_id_is(id), i as int),
        decreases ov.len() - i,
    {
        if ov[i].0 == id {
            return Some(i);
        }
        i = i + 1;
    }
    None
}

fn find_date_overlap_index(ov: &Vec<(u32, TimePeriod)>, p: &TimePeriod) -> (r: Option<usize>)
    requires
        p.days.is_well_formed(),
        forall|k: int| 0 <= k < ov@.len() ==> (#[trigger] ov@[k]).1.days.is_well_formed(),
    ensures
        match r {
            Some(i) => first_date_overlap(ov@, *p) == Some(i as int) && i < ov@.len(),
            None => first_date_overlap(ov@, *p) is None,
        },
{
    let mut i: usize = 0;
    while i < ov.len()
        invariant
            i <= ov.len(),
            p.days.is_well_formed(),
            forall|k: int| 0 <= k < ov@.len() ==> (#[trigger] ov@[k]).1.days.is_well_formed(),
            first_date_overlap(ov@, *p) == first_index(ov@, override_shares_day(*p), i as int),
        decreases ov.len() - i,
    {
        let e = ov[i];
        if e.1.overlaps_dates(p) {
            return Some(i);
        }
        i = i + 1;
    }
    None
}

/// The base period `base` with the non-empty parts of `patch` put in: times other than 25:00,
/// dates other than the empty date, and a non-empty set of weekdays.
pub open spec fn patched(base: TimePeriod, patch: TimePeriod) -> TimePeriod {
    TimePeriod {
        time_interval: TimeInterval {
            start: if patch.time_interval.start == empty_time() { base.time_interval.start } else { patch.time_interval.start },
            end: if patch.time_interval.end == empty_time() { base.time_interval.end } else { patch.time_interval.end },
        },
        date_range: DateRange {
            start: if patch.date_range.start.days == EMPTY_DAYS { base.date_range.start } else { patch.date_range.start },
            end: if patch.date_range.end.days == EMPTY_DAYS { base.date_range.end } else { patch.date_range.end },
        },
        days: if patch.days.bits == 0 { base.days } else { patch.days },
    }
}

pub open spec fn empty_time() -> Time {
    Time { hour: 25, minute: 0 }
}

/// Whether a slot's overrides are valid, carry IDs below `next` in increasing order, and share
/// no day with one another.
pub open spec fn overrides_ok(ov: Seq<(u32, TimePeriod)>, next: u32) -> bool {
    &&& forall|k: int| 0 <= k < ov.len() ==> (#[trigger] ov[k]).1.is_valid() && ov[k].0 < next
    &&& forall|k: int, l: int| 0 <= k < l < ov.len() ==> (#[trigger] ov[k]).0 < (#[trigger] ov[l]).0
    &&& forall|k: int, l: int|
        0 <= k < ov.len() && 0 <= l < ov.len() && k != l ==> !(#[trigger] ov[k]).1.spec_overlaps_dates(
            (#[trigger] ov[l]).1,
        )
}

/// Two slots collide when their base periods share a day and either their base times of day
/// intersect or an override of one collides with the base period of the other.
pub open spec fn slots_overlap(a: TimeSlotModel, b: TimeSlotModel) -> bool {
    &&& a.time_period.spec_overlaps_dates(b.time_period)
    &&& {
        ||| a.time_period.time_interval.spec_overlaps(&b.time_period.time_interval)
        ||| exists|i: int| 0 <= i < a.time_override.len() && (#[trigger] a.time_override[i]).1.spec_overlaps(b.time_period)
        ||| exists|j: int| 0 <= j < b.time_override.len() && (#[trigger] b.time_override[j]).1.spec_overlaps(a.time_period)
    }
}

/// No two slots of the table collide.
pub open spec fn disjoint_slots(s: Seq<(u32, TimeSlotModel)>) -> bool {
    forall|i: int, j: int|
        0 <= i < s.len() && 0 <= j < s.len() && i != j ==> !slots_overlap(
            (#[trigger] s[i]).1,
            (#[trigger] s[j]).1,
        )
}

/// Whether two slot models have the same periods.
pub open spec fn same_periods(a: TimeSlotModel, b: TimeSlotModel) -> bool {
    a.time_period == b.time_period && a.time_override == b.time_override
}

proof fn lemma_dates_sym(a: TimePeriod, b: TimePeriod)
    ensures
        a.spec_overlaps_dates(b) == b.spec_overlaps_dates(a),
{
    if a.spec_overlaps_dates(b) {
        let d = choose|d: int| a.covers(d) && b.covers(d);
        assert(b.covers(d) && a.covers(d));
    }
    if b.spec_overlaps_dates(a) {
        let d = choose|d: int| b.covers(d) && a.covers(d);
        assert(a.covers(d) && b.covers(d));
    }
}

/// Changing a slot's state or switching it on or off keeps the slots apart.
proof fn lemma_disjoint_same_periods(s: Seq<(u32, TimeSlotModel)>, t: Seq<(u32, TimeSlotModel)>)
    requires
        disjoint_slots(s),
        s.len() == t.len(),
        forall|i: int| 0 <= i < s.len() ==> same_periods((#[trigger] s[i]).1, t[i].1),
    ensures
        disjoint_slots(t),
{
    assert forall|i: int, j: int| 0 <= i < t.len() && 0 <= j < t.len() && i != j implies !slots_overlap(
        (#[trigger] t[i]).1, (#[trigger] t[j]).1) by {
        assert(same_periods(s[i].1, t[i].1) && same_periods(s[j].1, t[j].1));
        assert(!slots_overlap(s[i].1, s[j].1));
    }
}

proof fn lemma_disjoint_remove(s: Seq<(u32, TimeSlotModel)>, k: int)
    requires
        disjoint_slots(s),
        0 <= k < s.len(),
    ensures
        disjoint_slots(s.remove(k)),
{
    let t = s.remove(k);
    assert forall|i: int, j: int| 0 <= i < t.len() && 0 <= j < t.len() && i != j implies !slots_overlap(
        (#[trigger] t[i]).1, (#[trigger] t[j]).1) by {
        let oi = if i < k { i } else { i + 1 };
        let oj = if j < k { j } else { j + 1 };
        assert(t[i] == s[oi] && t[j] == s[oj]);
        assert(!slots_overlap(s[oi].1, s[oj].1));
    }
}

/// A new slot without overrides that collides with no slot keeps the slots apart.
proof fn lemma_disjoint_push(s: Seq<(u32, TimeSlotModel)>, id: u32, slot: TimeSlotModel)
    requires
        disjoint_slots(s),
        slot.time_override.len() == 0,
        first_overlap(s, slot.time_period, None) is None,
    ensures
        disjoint_slots(s.push((id, slot))),
{
    let t = s.push((id, slot));
    let p = slot.time_period;
    lemma_first_index(s, slot_collides(p, None), 0);
    assert forall|i: int, j: int| 0 <= i < t.len() && 0 <= j < t.len() && i != j implies !slots_overlap(
        (#[trigger] t[i]).1, (#[trigger] t[j]).1) by {
        if i == s.len() || j == s.len() {
            let o = if i == s.len() { j } else { i };
            let b = s[o].1;
            assert(!slot_collides(p, None)(s[o]));
            lemma_dates_sym(b.time_period, p);
            if slots_overlap(t[i].1, t[j].1) {
                if exists|m: int| 0 <= m < b.time_override.len() && (#[trigger] b.time_override[m]).1.spec_overlaps(p) {
                    assert(b.overlaps_period(p));
                } else {
                    assert(b.time_period.time_interval.spec_overlaps(&p.time_interval));
                    assert(b.overlaps_period(p));
                }
            }
        } else {
            assert(t[i] == s[i] && t[j] == s[j]);
        }
    }
}

/// A new override that collides with no other slot keeps the slots apart.
proof fn lemma_disjoint_add_override(s: Seq<(u32, TimeSlotModel)>, k: int, p: TimePeriod, oid: u32)
    requires
        disjoint_slots(s),
        0 <= k < s.len(),
        forall|i: int| 0 <= i < s.len() && i != k ==> (#[trigger] s[i]).0 != s[k].0,
        first_overlap(s, p, Some(s[k].0)) is None,
    ensures
        disjoint_slots(s.update(k, (s[k].0, TimeSlotModel { time_override: s[k].1.time_override.push((oid, p)), ..s[k].1 }))),
{
    let a = s[k].1;
    let a2 = TimeSlotModel { time_override: a.time_override.push((oid, p)), ..a };
    let t = s.update(k, (s[k].0, a2));
    lemma_first_index(s, slot_collides(p, Some(s[k].0)), 0);
    assert forall|i: int, j: int| 0 <= i < t.len() && 0 <= j < t.len() && i != j implies !slots_overlap(
        (#[trigger] t[i]).1, (#[trigger] t[j]).1) by {
        if i == k || j == k {
            let o = if i == k { j } else { i };
            let b = s[o].1;
            assert(!slot_collides(p, Some(s[k].0))(s[o]));
            assert(!slots_overlap(a, b) && !slots_overlap(b, a));
            if slots_overlap(t[i].1, t[j].1) {
                if exists|m: int| 0 <= m < a2.time_override.len() && (#[trigger] a2.time_override[m]).1.spec_overlaps(b.time_period) {
                    let m = choose|m: int| 0 <= m < a2.time_override.len() && (#[trigger] a2.time_override[m]).1.spec_overlaps(b.time_period);
                    if m < a.time_override.len() {
                        assert(a.time_override[m] == a2.time_override[m]);
                    } else {
                        lemma_dates_sym(b.time_period, p);
                        assert(b.overlaps_period(p));
                    }
                }
            }
        } else {
            assert(t[i] == s[i] && t[j] == s[j]);
        }
    }
}

/// Removing an override keeps the slots apart.
proof fn lemma_disjoint_remove_override(s: Seq<(u32, TimeSlotModel)>, k: int, m: int)
    requires
        disjoint_slots(s),
        0 <= k < s.len(),
        0 <= m < s[k].1.time_override.len(),
    ensures
        disjoint_slots(s.update(k, (s[k].0, TimeSlotModel { time_override: s[k].1.time_override.remove(m), ..s[k].1 }))),
{
    let a = s[k].1;
    let a2 = TimeSlotModel { time_override: a.time_override.remove(m), ..a };
    let t = s.update(k, (s[k].0, a2));
    assert forall|i: int, j: int| 0 <= i < t.len() && 0 <= j < t.len() && i != j implies !slots_overlap(
        (#[trigger] t[i]).1, (#[trigger] t[j]).1) by {
        if i == k || j == k {
            let o = if i == k { j } else { i };
            let b = s[o].1;
            assert(!slots_overlap(a, b) && !slots_overlap(b, a));
            if exists|x: int| 0 <= x < a2.time_override.len() && (#[trigger] a2.time_override[x]).1.spec_overlaps(b.time_period) {
                let x = choose|x: int| 0 <= x < a2.time_override.len() && (#[trigger] a2.time_override[x]).1.spec_overlaps(b.time_period);
                let y = if x < m { x } else { x + 1 };
                assert(a2.time_override[x] == a.time_override[y]);
            }
        } else {
            assert(t[i] == s[i] && t[j] == s[j]);
        }
    }
}

/// Collision of slots does not depend on their order.
pub proof fn lemma_slots_overlap_sym(a: TimeSlotModel, b: TimeSlotModel)
    ensures
        slots_overlap(a, b) == slots_overlap(b, a),
{
    lemma_dates_sym(a.time_period, b.time_period);
}

/// Replacing slot `k` by a slot that collides with no other slot keeps the slots apart.
proof fn lemma_disjoint_replace(s: Seq<(u32, TimeSlotModel)>, k: int, x: TimeSlotModel)
    requires
        disjoint_slots(s),
        0 <= k < s.len(),
        forall|j: int| 0 <= j < s.len() && j != k ==> !slots_overlap(x, (#[trigger] s[j]).1),
    ensures
        disjoint_slots(s.update(k, (s[k].0, x))),
{
    let t = s.update(k, (s[k].0, x));
    assert forall|i: int, j: int| 0 <= i < t.len() && 0 <= j < t.len() && i != j implies !slots_overlap(
        (#[trigger] t[i]).1, (#[trigger] t[j]).1) by {
        if i == k {
            assert(t[j] == s[j]);
        } else if j == k {
            assert(t[i] == s[i]);
            lemma_slots_overlap_sym(x, s[i].1);
        } else {
            assert(t[i] == s[i] && t[j] == s[j]);
        }
    }
}

/// What an actuator is, as contracts see it.
pub struct ActuatorModel {
    pub info: ActuatorInfo,
    pub timeslots: Seq<(u32, TimeSlotModel)>,
    pub default_state: ActuatorState,
    pub next_timeslot_id: u32,
    pub next_override_id: u32,
    pub active: ActiveTimeSlot,
}

impl ActuatorModel {
    pub open spec fn fits(self, state: ActuatorState) -> bool {
        state_fits(self.info.actuator_type, state)
    }

    pub open spec fn slot_ok(self, e: (u32, TimeSlotModel)) -> bool {
        &&& self.fits(e.1.actuator_state)
        &&& e.1.time_period.is_valid()
        &&& e.0 < self.next_timeslot_id
        &&& overrides_ok(e.1.time_override, self.next_override_id)
    }

    /// The invariant kept by every operation: the states fit the actuator's type, every period
    /// is valid, slot IDs increase along the table and lie below the next slot ID, and the
    /// overrides of each slot are as `overrides_ok` says.
    pub open spec fn wf(self) -> bool {
        &&& self.fits(self.default_state)
        &&& forall|i: int| 0 <= i < self.timeslots.len() ==> self.slot_ok(#[trigger] self.timeslots[i])
        &&& forall|i: int, j: int|
            0 <= i < j < self.timeslots.len() ==> (#[trigger] self.timeslots[i]).0 < (#[trigger] self.timeslots[j]).0
    }

    /// No two slots collide.
    pub open spec fn slots_disjoint(self) -> bool {
        disjoint_slots(self.timeslots)
    }

    /// The model with the rule in force replaced.
    pub open spec fn with_active(self, active: ActiveTimeSlot) -> ActuatorModel {
        ActuatorModel { active, ..self }
    }

    /// The model with another slot table and rule in force.
    pub open spec fn with_slots(self, timeslots: Seq<(u32, TimeSlotModel)>, active: ActiveTimeSlot) -> ActuatorModel {
        ActuatorModel { timeslots, active, ..self }
    }
}

pub open spec fn set_default_post(old: ActuatorModel, new: ActuatorModel, state: ActuatorState, r: Result<(), Error>) -> bool {
    if !old.fits(state) {
        r == Err::<(), Error>(Error::InvalidArgument(InvalArgError::ActuatorState)) && new == old
    } else {
        &&& r == Ok::<(), Error>(())
        &&& new == ActuatorModel {
            default_state: state,
            active: if old.active.state is DefaultStateActive {
                ActiveTimeSlot { actuator_state: state, ..old.active }
            } else {
                old.active
            },
            ..old
        }
    }
}

pub open spec fn add_slot_post(old: ActuatorModel, new: ActuatorModel, period: TimePeriod, state: ActuatorState, enabled: bool, now: DateTime, r: Result<u32, Error>) -> bool {
    if !period.is_valid() {
        r == Err::<u32, Error>(Error::InvalidArgument(InvalArgError::TimePeriod)) && new == old
    } else if !old.fits(state) {
        r == Err::<u32, Error>(Error::InvalidArgument(InvalArgError::ActuatorState)) && new == old
    } else if let Some(i) = first_overlap(old.timeslots, period, None) {
        r == Err::<u32, Error>(Error::TimeSlotOverlap(old.timeslots[i].0)) && new == old
    } else {
        let id = old.next_timeslot_id;
        let slot = TimeSlotModel { enabled, actuator_state: state, time_period: period, time_override: Seq::empty() };
        &&& r == Ok::<u32, Error>(id)
        &&& new == ActuatorModel {
            timeslots: old.timeslots.push((id, slot)),
            next_timeslot_id: (id + 1) as u32,
            active: spec_update_added(old.active, slot, id, now),
            ..old
        }
    }
}

pub open spec fn remove_slot_post(old: ActuatorModel, new: ActuatorModel, id: u32, now: DateTime, r: Result<(), Error>) -> bool {
    match find_slot(old.timeslots, id) {
        None => r == Err::<(), Error>(Error::InvalidArgument(InvalArgError::TimeSlotId)) && new == old,
        Some(i) => {
            let s = old.timeslots.remove(i);
            &&& r == Ok::<(), Error>(())
            &&& new == old.with_slots(s, spec_update_removed(old.active, id, s, old.default_state, now))
        },
    }
}

pub open spec fn set_period_post(old: ActuatorModel, new: ActuatorModel, id: u32, patch: TimePeriod, now: DateTime, r: Result<(), Error>) -> bool {
    match find_slot(old.timeslots, id) {
        None => r == Err::<(), Error>(Error::InvalidArgument(InvalArgError::TimeSlotId)) && new == old,
        Some(i) => {
            let candidate = patched(old.timeslots[i].1.time_period, patch);
            if !candidate.is_valid() {
                r == Err::<(), Error>(Error::InvalidArgument(InvalArgError::TimePeriod)) && new == old
            } else if let Some(j) = first_collision(
                old.timeslots,
                TimeSlotModel { time_period: candidate, ..old.timeslots[i].1 },
                id,
            ) {
                r == Err::<(), Error>(Error::TimeSlotOverlap(old.timeslots[j].0)) && new == old
            } else {
                let slot = TimeSlotModel { time_period: candidate, ..old.timeslots[i].1 };
                let s = old.timeslots.update(i, (id, slot));
                &&& r == Ok::<(), Error>(())
                &&& new == old.with_slots(s, spec_update_modified(old.active, slot, id, s, old.default_state, now))
            }
        },
    }
}

pub open spec fn set_enabled_post(old: ActuatorModel, new: ActuatorModel, id: u32, enabled: bool, now: DateTime, r: Result<(), Error>) -> bool {
    match find_slot(old.timeslots, id) {
        None => r == Err::<(), Error>(Error::InvalidArgument(InvalArgError::TimeSlotId)) && new == old,
        Some(i) => {
            let slot = TimeSlotModel { enabled, ..old.timeslots[i].1 };
            let s = old.timeslots.update(i, (id, slot));
            let active = if old.timeslots[i].1.enabled == enabled {
                old.active
            } else if enabled {
                spec_update_added(old.active, slot, id, now)
            } else {
                spec_update_removed(old.active, id, s, old.default_state, now)
            };
            &&& r == Ok::<(), Error>(())
            &&& new == old.with_slots(s, active)
        },
    }
}

pub open spec fn set_slot_state_post(old: ActuatorModel, new: ActuatorModel, id: u32, state: ActuatorState, r: Result<(), Error>) -> bool {
    if !old.fits(state) {
        r == Err::<(), Error>(Error::InvalidArgument(InvalArgError::ActuatorState)) && new == old
    } else {
        match find_slot(old.timeslots, id) {
            None => r == Err::<(), Error>(Error::InvalidArgument(InvalArgError::TimeSlotId)) && new == old,
            Some(i) => {
                let slot = TimeSlotModel { actuator_state: state, ..old.timeslots[i].1 };
                let s = old.timeslots.update(i, (id, slot));
                let active = match old.active.state {
                    ActiveTimeSlotState::TimeSlotActive { id: aid, .. } => if aid == id {
                        ActiveTimeSlot { actuator_state: state, ..old.active }
                    } else {
                        old.active
                    },
                    _ => old.active,
                };
                &&& r == Ok::<(), Error>(())
                &&& new == old.with_slots(s, active)
            },
        }
    }
}

pub open spec fn add_override_post(old: ActuatorModel, new: ActuatorModel, id: u32, period: TimePeriod, now: DateTime, r: Result<u32, Error>) -> bool {
    if !period.is_valid() {
        r == Err::<u32, Error>(Error::InvalidArgument(InvalArgError::TimePeriod)) && new == old
    } else if let Some(j) = first_overlap(old.timeslots, period, Some(id)) {
        r == Err::<u32, Error>(Error::TimeSlotOverlap(old.timeslots[j].0)) && new == old
    } else {
        match find_slot(old.timeslots, id) {
            None => r == Err::<u32, Error>(Error::InvalidArgument(InvalArgError::TimeSlotId)) && new == old,
            Some(i) => {
                let ov = old.timeslots[i].1.time_override;
                if let Some(k) = first_date_overlap(ov, period) {
                    r == Err::<u32, Error>(Error::TimeOverrideOverlap(ov[k].0)) && new == old
                } else {
                    let oid = old.next_override_id;
                    let slot = TimeSlotModel { time_override: ov.push((oid, period)), ..old.timeslots[i].1 };
                    let s = old.timeslots.update(i, (id, slot));
                    &&& r == Ok::<u32, Error>(oid)
                    &&& new == ActuatorModel {
                        timeslots: s,
                        next_override_id: (oid + 1) as u32,
                        active: spec_update_modified(old.active, slot, id, s, old.default_state, now),
                        ..old
                    }
                }
            },
        }
    }
}

pub open spec fn remove_override_post(old: ActuatorModel, new: ActuatorModel, id: u32, override_id: u32, now: DateTime, r: Result<(), Error>) -> bool {
    match find_slot(old.timeslots, id) {
        None => r == Err::<(), Error>(Error::InvalidArgument(InvalArgError::TimeSlotId)) && new == old,
        Some(i) => {
            let ov = old.timeslots[i].1.time_override;
            match find_override(ov, override_id) {
                None => r == Err::<(), Error>(Error::InvalidArgument(InvalArgError::TimeOverrideId)) && new == old,
                Some(k) => {
                    let slot = TimeSlotModel { time_override: ov.remove(k), ..old.timeslots[i].1 };
                    let s = old.timeslots.update(i, (id, slot));
                    &&& r == Ok::<(), Error>(())
                    &&& new == old.with_slots(s, spec_update_modified(old.active, slot, id, s, old.default_state, now))
                },
            }
        },
    }
}

/// The rule in force after its end time is reached, and the engine's clock after that step.
pub open spec fn spec_advance(m: ActuatorModel, now: DateTime) -> (ActiveTimeSlot, DateTime) {
    let a = m.active;
    let promoted = match a.state {
        ActiveTimeSlotState::DefaultStateActive { next_id: Some(nid), next_override_id } => match find_slot(m.timeslots, nid) {
            Some(i) => match m.timeslots[i].1.interval_on(now.date.days as int) {
                Some((iv, _)) => Some(active_slot(nid, next_override_id, iv.end, m.timeslots[i].1.actuator_state)),
                None => None,
            },
            None => None,
        },
        _ => None,
    };
    match promoted {
        Some(p) => (p, now),
        None => {
            let next_now = if a.end_time == (Time { hour: 3, minute: 59 }) {
                DateTime {
                    date: if now.date.days < MAX_DAYS { Date { days: (now.date.days + 1) as i32 } } else { now.date },
                    time: Time { hour: 4, minute: 0 },
                }
            } else {
                DateTime { date: now.date, time: a.end_time }
            };
            (spec_compute(next_now, m.timeslots, m.default_state), next_now)
        },
    }
}

} // verus!

verus! {

proof fn lemma_overrides_push(ov: Seq<(u32, TimePeriod)>, oid: u32, p: TimePeriod)
    requires
        overrides_ok(ov, oid),
        oid < u32::MAX,
        p.is_valid(),
        forall|k: int| 0 <= k < ov.len() ==> !(#[trigger] ov[k]).1.spec_overlaps_dates(p),
    ensures
        overrides_ok(ov.push((oid, p)), (oid + 1) as u32),
{
    let nv = ov.push((oid, p));
    assert forall|k: int, l: int| 0 <= k < nv.len() && 0 <= l < nv.len() && k != l implies !(#[trigger] nv[k]).1.spec_overlaps_dates(
        (#[trigger] nv[l]).1) by {
        if k == ov.len() {
            assert(!ov[l].1.spec_overlaps_dates(p));
            if p.spec_overlaps_dates(ov[l].1) {
                let d = choose|d: int| p.covers(d) && ov[l].1.covers(d);
                assert(ov[l].1.covers(d) && p.covers(d));
            }
        } else if l == ov.len() {
            assert(!ov[k].1.spec_overlaps_dates(p));
        }
    }
}

/// Replacing one slot by another of the same ID that is itself sound keeps the invariant.
proof fn lemma_wf_replace_slot(old: ActuatorModel, new: ActuatorModel, idx: int)
    requires
        old.wf(),
        0 <= idx < old.timeslots.len(),
        new.info == old.info,
        new.default_state == old.default_state,
        new.next_timeslot_id == old.next_timeslot_id,
        new.next_override_id >= old.next_override_id,
        new.timeslots.len() == old.timeslots.len(),
        new.timeslots[idx].0 == old.timeslots[idx].0,
        new.slot_ok(new.timeslots[idx]),
        forall|i: int| 0 <= i < old.timeslots.len() && i != idx ==> new.timeslots[i] == old.timeslots[i],
    ensures
        new.wf(),
{
    assert forall|i: int| 0 <= i < new.timeslots.len() implies new.slot_ok(#[trigger] new.timeslots[i]) by {
        if i != idx {
            assert(old.slot_ok(old.timeslots[i]));
            let ov = old.timeslots[i].1.time_override;
            assert forall|k: int| 0 <= k < ov.len() implies (#[trigger] ov[k]).1.is_valid() && ov[k].0 < new.next_override_id by {
                assert(ov[k].1.is_valid() && ov[k].0 < old.next_override_id);
            }
        }
    }
    assert forall|i: int, j: int| 0 <= i < j < new.timeslots.len() implies (#[trigger] new.timeslots[i]).0 < (#[trigger] new.timeslots[j]).0 by {
        assert(old.timeslots[i].0 < old.timeslots[j].0);
    }
}

/// The period `base` with the non-empty parts of `patch` put in.
pub fn patch_period(base: &TimePeriod, patch: &TimePeriod) -> (r: TimePeriod)
    ensures
        r == patched(*base, *patch),
{
    let mut r = *base;
    if patch.time_interval.start != Time::empty() {
        r.time_interval.start = patch.time_interval.start;
    }
    if patch.time_interval.end != Time::empty() {
        r.time_interval.end = patch.time_interval.end;
    }
    if patch.date_range.start.days != EMPTY_DAYS {
        r.date_range.start = patch.date_range.start;
    }
    if patch.date_range.end.days != EMPTY_DAYS {
        r.date_range.end = patch.date_range.end;
    }
    if patch.days.bits != 0 {
        r.days = patch.days;
    }
    r
}

/// An actuator: its schedule of time slots, its default state, the counters that give IDs, and
/// the rule in force.
pub struct Actuator {
    pub info: ActuatorInfo,
    timeslots: Vec<(u32, TimeSlot)>,
    default_state: ActuatorState,
    next_timeslot_id: u32,
    next_override_id: u32,
    active: ActiveTimeSlot,
}

impl View for Actuator {
    type V = ActuatorModel;

    closed spec fn view(&self) -> ActuatorModel {
        ActuatorModel {
            info: self.info,
            timeslots: slots_view(self.timeslots@),
            default_state: self.default_state,
            next_timeslot_id: self.next_timeslot_id,
            next_override_id: self.next_override_id,
            active: self.active,
        }
    }
}

impl Actuator {
    /// An actuator with no time slot, in its default state.
    pub fn new(info: ActuatorInfo, default_state: ActuatorState) -> (r: Actuator)
        ensures
            r@.info == info,
            r@.timeslots == Seq::<(u32, TimeSlotModel)>::empty(),
            r@.default_state == default_state,
            r@.next_timeslot_id == 0,
            r@.next_override_id == 0,
            r@.active == active_default(default_state),
            state_fits(info.actuator_type, default_state) ==> r@.wf(),
    {
        let r = Actuator {
            info,
            timeslots: Vec::new(),
            default_state,
            next_timeslot_id: 0,
            next_override_id: 0,
            active: ActiveTimeSlot::default_state(default_state),
        };
        assert(r@.timeslots =~= Seq::<(u32, TimeSlotModel)>::empty());
        r
    }

    pub fn info(&self) -> (r: &ActuatorInfo)
        ensures
            *r == self@.info,
    {
        &self.info
    }

    pub fn timeslots(&self) -> (r: &Vec<(u32, TimeSlot)>)
        ensures
            slots_view(r@) == self@.timeslots,
    {
        &self.timeslots
    }

    pub fn default_state(&self) -> (r: &ActuatorState)
        ensures
            *r == self@.default_state,
    {
        &self.default_state
    }

    pub fn active_timeslot(&self) -> (r: ActiveTimeSlot)
        ensures
            r == self@.active,
    {
        self.active
    }

    pub fn next_timeslot_id(&self) -> (r: u32)
        ensures
            r == self@.next_timeslot_id,
    {
        self.next_timeslot_id
    }

    pub fn next_override_id(&self) -> (r: u32)
        ensures
            r == self@.next_override_id,
    {
        self.next_override_id
    }

    /// Whether the actuator's type is valid and its default state fits it.
    pub fn valid(&self) -> (r: bool)
        ensures
            r == (self@.info.spec_valid() && self@.fits(self@.default_state)),
    {
        self.info.valid() && self.info.valid_state(&self.default_state)
    }

    pub fn valid_state(&self, state: &ActuatorState) -> (r: bool)
        ensures
            r == self@.fits(*state),
    {
        self.info.valid_state(state)
    }

    pub fn set_default_state(&mut self, default_state: ActuatorState) -> (r: Result<(), Error>)
        requires
            old(self)@.wf(),
        ensures
            set_default_post(old(self)@, final(self)@, default_state, r),
            final(self)@.wf(),
            old(self)@.next_timeslot_id <= final(self)@.next_timeslot_id,
            old(self)@.next_override_id <= final(self)@.next_override_id,
            old(self)@.slots_disjoint() ==> final(self)@.slots_disjoint(),
    {
        if !self.valid_state(&default_state) {
            return Err(Error::InvalidArgument(InvalArgError::ActuatorState));
        }
        let ghost before = self@;
        self.default_state = default_state;
        if let ActiveTimeSlotState::DefaultStateActive { .. } = self.active.state {
            self.active.actuator_state = default_state;
        }
        proof {
            assert forall|i: int| 0 <= i < self@.timeslots.len() implies self@.slot_ok(#[trigger] self@.timeslots[i]) by {
                assert(before.slot_ok(before.timeslots[i]));
            }
        }
        Ok(())
    }

    pub fn add_time_slot(&mut self, time_period: TimePeriod, actuator_state: ActuatorState, enabled: bool, now: DateTime) -> (r: Result<u32, Error>)
        requires
            old(self)@.wf(),
            old(self)@.next_timeslot_id < u32::MAX,
        ensures
            add_slot_post(old(self)@, final(self)@, time_period, actuator_state, enabled, now, r),
            final(self)@.wf(),
            r matches Ok(id) ==> id == old(self)@.next_timeslot_id && id < final(self)@.next_timeslot_id
                && forall|i: int| 0 <= i < old(self)@.timeslots.len() ==> (#[trigger] old(self)@.timeslots[i]).0 != id,
            old(self)@.next_timeslot_id <= final(self)@.next_timeslot_id,
            old(self)@.next_override_id <= final(self)@.next_override_id,
            old(self)@.slots_disjoint() ==> final(self)@.slots_disjoint(),
    {
        if !time_period.valid() {
            return Err(Error::InvalidArgument(InvalArgError::TimePeriod));
        }
        if !self.valid_state(&actuator_state) {
            return Err(Error::InvalidArgument(InvalArgError::ActuatorState));
        }
        proof {
            self.lemma_days_well_formed();
        }
        if let Some(i) = find_overlap_index(&self.timeslots, &time_period, None) {
            return Err(Error::TimeSlotOverlap(self.timeslots[i].0));
        }
        let id = self.next_timeslot_id;
        let ts = TimeSlot::new(enabled, actuator_state, time_period);
        let new_active = self.active.update_timeslot_added(&ts, id, &now);
        let ghost prev = self.timeslots@;
        self.timeslots.push((id, ts));
        self.next_timeslot_id = id + 1;
        self.active = new_active;
        proof {
            assert(slots_view(self.timeslots@) =~= slots_view(prev).push((id, ts@)));
            if old(self)@.slots_disjoint() {
                lemma_disjoint_push(slots_view(prev), id, ts@);
            }
        }
        Ok(id)
    }

    pub fn remove_time_slot(&mut self, time_slot_id: u32, now: DateTime) -> (r: Result<(), Error>)
        requires
            old(self)@.wf(),
        ensures
            remove_slot_post(old(self)@, final(self)@, time_slot_id, now, r),
            final(self)@.wf(),
            old(self)@.next_timeslot_id <= final(self)@.next_timeslot_id,
            old(self)@.next_override_id <= final(self)@.next_override_id,
            old(self)@.slots_disjoint() ==> final(self)@.slots_disjoint(),
    {
        let idx = match find_slot_index(&self.timeslots, time_slot_id) {
            Some(i) => i,
            None => {
                return Err(Error::InvalidArgument(InvalArgError::TimeSlotId));
            },
        };
        let ghost prev = self.timeslots@;
        self.timeslots.remove(idx);
        proof {
            assert(slots_view(self.timeslots@) =~= slots_view(prev).remove(idx as int));
            if old(self)@.slots_disjoint() {
                lemma_disjoint_remove(slots_view(prev), idx as int);
            }
        }
        let new_active = self.active.update_timeslot_removed(time_slot_id, &self.timeslots, self.default_state, &now);
        self.active = new_active;
        Ok(())
    }

    pub fn time_slot_set_time_period(&mut self, time_slot_id: u32, time_period: TimePeriod, now: DateTime) -> (r: Result<(), Error>)
        requires
            old(self)@.wf(),
        ensures
            set_period_post(old(self)@, final(self)@, time_slot_id, time_period, now, r),
            final(self)@.wf(),
            old(self)@.next_timeslot_id <= final(self)@.next_timeslot_id,
            old(self)@.next_override_id <= final(self)@.next_override_id,
            old(self)@.slots_disjoint() ==> final(self)@.slots_disjoint(),
    {
        let idx = match find_slot_index(&self.timeslots, time_slot_id) {
            Some(i) => i,
            None => {
                return Err(Error::InvalidArgument(InvalArgError::TimeSlotId));
            },
        };
        let candidate = patch_period(&self.timeslots[idx].1.time_period, &time_period);
        if !candidate.valid() {
            return Err(Error::InvalidArgument(InvalArgError::TimePeriod));
        }
        proof {
            self.lemma_days_well_formed();
        }
        let mut ts = self.timeslots[idx].1.duplicate();
        ts.time_period = candidate;
        proof {
            assert(self@.timeslots[idx as int] == (self.timeslots@[idx as int].0, self.timeslots@[idx as int].1@));
            assert(self@.slot_ok(self@.timeslots[idx as int]));
            let ov = ts@.time_override;
            assert forall|k: int| 0 <= k < ov.len() implies (#[trigger] ov[k]).1.days.is_well_formed() by {
                assert(ov[k].1.is_valid());
            }
        }
        if let Some(j) = find_collision_index(&self.timeslots, &ts, time_slot_id) {
            return Err(Error::TimeSlotOverlap(self.timeslots[j].0));
        }
        let ghost prev = self.timeslots@;
        let ghost slot = ts@;
        self.timeslots[idx] = (time_slot_id, ts);
        proof {
            assert(slots_view(self.timeslots@) =~= slots_view(prev).update(idx as int, (time_slot_id, slot)));
            let sv = slots_view(prev);
            if old(self)@.slots_disjoint() {
                lemma_first_index(sv, slot_meets(slot, time_slot_id), 0);
                assert forall|j: int| 0 <= j < sv.len() && j != idx implies !slots_overlap(slot, (#[trigger] sv[j]).1) by {
                    assert(!slot_meets(slot, time_slot_id)(sv[j]));
                    if j < idx {
                        assert(sv[j].0 < sv[idx as int].0);
                    } else {
                        assert(sv[idx as int].0 < sv[j].0);
                    }
                }
                lemma_disjoint_replace(sv, idx as int, slot);
            }
        }
        let new_active = self.active.update_timeslot_modified(&self.timeslots[idx].1, time_slot_id, &self.timeslots, self.default_state, &now);
        self.active = new_active;
        Ok(())
    }

    pub fn time_slot_set_enabled(&mut self, time_slot_id: u32, enabled: bool, now: DateTime) -> (r: Result<(), Error>)
        requires
            old(self)@.wf(),
        ensures
            set_enabled_post(old(self)@, final(self)@, time_slot_id, enabled, now, r),
            final(self)@.wf(),
            old(self)@.next_timeslot_id <= final(self)@.next_timeslot_id,
            old(self)@.next_override_id <= final(self)@.next_override_id,
            old(self)@.slots_disjoint() ==> final(self)@.slots_disjoint(),
    {
        let idx = match find_slot_index(&self.timeslots, time_slot_id) {
            Some(i) => i,
            None => {
                return Err(Error::InvalidArgument(InvalArgError::TimeSlotId));
            },
        };
        let old_enabled = self.timeslots[idx].1.enabled;
        let mut ts = self.timeslots[idx].1.duplicate();
        ts.enabled = enabled;
        let ghost prev = self.timeslots@;
        let ghost slot = ts@;
        self.timeslots[idx] = (time_slot_id, ts);
        proof {
            assert(slots_view(self.timeslots@) =~= slots_view(prev).update(idx as int, (time_slot_id, slot)));
        }
        proof {
            if old(self)@.slots_disjoint() {
                lemma_disjoint_same_periods(slots_view(prev), slots_view(self.timeslots@));
            }
        }
        if old_enabled != enabled {
            let new_active = if enabled {
                self.active.update_timeslot_added(&self.timeslots[idx].1, time_slot_id, &now)
            } else {
                self.active.update_timeslot_removed(time_slot_id, &self.timeslots, self.default_state, &now)
            };
            self.active = new_active;
        }
        Ok(())
    }

    pub fn time_slot_set_actuator_state(&mut self, time_slot_id: u32, actuator_state: ActuatorState) -> (r: Result<(), Error>)
        requires
            old(self)@.wf(),
        ensures
            set_slot_state_post(old(self)@, final(self)@, time_slot_id, actuator_state, r),
            final(self)@.wf(),
            old(self)@.next_timeslot_id <= final(self)@.next_timeslot_id,
            old(self)@.next_override_id <= final(self)@.next_override_id,
            old(self)@.slots_disjoint() ==> final(self)@.slots_disjoint(),
    {
        if !self.valid_state(&actuator_state) {
            return Err(Error::InvalidArgument(InvalArgError::ActuatorState));
        }
        let idx = match find_slot_index(&self.timeslots, time_slot_id) {
            Some(i) => i,
            None => {
                return Err(Error::InvalidArgument(InvalArgError::TimeSlotId));
            },
        };
        let mut ts = self.timeslots[idx].1.duplicate();
        ts.actuator_state = actuator_state;
        let ghost prev = self.timeslots@;
        let ghost slot = ts@;
        self.timeslots[idx] = (time_slot_id, ts);
        proof {
            assert(slots_view(self.timeslots@) =~= slots_view(prev).update(idx as int, (time_slot_id, slot)));
        }
        proof {
            if old(self)@.slots_disjoint() {
                lemma_disjoint_same_periods(slots_view(prev), slots_view(self.timeslots@));
            }
        }
        if let ActiveTimeSlotState::TimeSlotActive { id, .. } = self.active.state {
            if id == time_slot_id {
                self.active.actuator_state = actuator_state;
            }
        }
        Ok(())
    }

    pub fn time_slot_add_time_override(&mut self, time_slot_id: u32, time_period: TimePeriod, now: DateTime) -> (r: Result<u32, Error>)
        requires
            old(self)@.wf(),
            old(self)@.next_override_id < u32::MAX,
        ensures
            add_override_post(old(self)@, final(self)@, time_slot_id, time_period, now, r),
            final(self)@.wf(),
            r matches Ok(oid) ==> oid == old(self)@.next_override_id && oid < final(self)@.next_override_id
                && forall|i: int, m: int|
                0 <= i < old(self)@.timeslots.len() && 0 <= m < old(self)@.timeslots[i].1.time_override.len()
                    ==> (#[trigger] old(self)@.timeslots[i].1.time_override[m]).0 != oid,
            old(self)@.next_timeslot_id <= final(self)@.next_timeslot_id,
            old(self)@.next_override_id <= final(self)@.next_override_id,
            old(self)@.slots_disjoint() ==> final(self)@.slots_disjoint(),
    {
        if !time_period.valid() {
            return Err(Error::InvalidArgument(InvalArgError::TimePeriod));
        }
        proof {
            self.lemma_days_well_formed();
        }
        if let Some(j) = find_overlap_index(&self.timeslots, &time_period, Some(time_slot_id)) {
            return Err(Error::TimeSlotOverlap(self.timeslots[j].0));
        }
        let idx = match find_slot_index(&self.timeslots, time_slot_id) {
            Some(i) => i,
            None => {
                return Err(Error::InvalidArgument(InvalArgError::TimeSlotId));
            },
        };
        proof {
            assert(self@.timeslots[idx as int] == (self.timeslots@[idx as int].0, self.timeslots@[idx as int].1@));
            assert(self@.slot_ok(self@.timeslots[idx as int]));
        }
        if let Some(k) = find_date_overlap_index(&self.timeslots[idx].1.time_override, &time_period) {
            return Err(Error::TimeOverrideOverlap(self.timeslots[idx].1.time_override[k].0));
        }
        let oid = self.next_override_id;
        let mut ts = self.timeslots[idx].1.duplicate();
        let ghost old_ov = ts.time_override@;
        ts.time_override.push((oid, time_period));
        proof {
            lemma_first_index(old_ov, override_shares_day(time_period), 0);
            lemma_overrides_push(old_ov, oid, time_period);
        }
        let ghost before = self@;
        let ghost prev = self.timeslots@;
        let ghost slot = ts@;
        self.timeslots[idx] = (time_slot_id, ts);
        self.next_override_id = oid + 1;
        proof {
            assert(slots_view(self.timeslots@) =~= slots_view(prev).update(idx as int, (time_slot_id, slot)));
            lemma_wf_replace_slot(before, self@, idx as int);
            if before.slots_disjoint() {
                assert forall|i: int| 0 <= i < before.timeslots.len() && i != idx implies (#[trigger] before.timeslots[i]).0 != before.timeslots[idx as int].0 by {
                    if i < idx {
                        assert(before.timeslots[i].0 < before.timeslots[idx as int].0);
                    } else {
                        assert(before.timeslots[idx as int].0 < before.timeslots[i].0);
                    }
                }
                assert(slot.time_override =~= before.timeslots[idx as int].1.time_override.push((oid, time_period)));
                lemma_disjoint_add_override(before.timeslots, idx as int, time_period, oid);
                assert(self@.timeslots =~= before.timeslots.update(idx as int, (time_slot_id, TimeSlotModel {
                    time_override: before.timeslots[idx as int].1.time_override.push((oid, time_period)),
                    ..before.timeslots[idx as int].1
                })));
            }
        }
        let new_active = self.active.update_timeslot_modified(&self.timeslots[idx].1, time_slot_id, &self.timeslots, self.default_state, &now);
        self.active = new_active;
        Ok(oid)
    }

    pub fn time_slot_remove_time_override(&mut self, time_slot_id: u32, time_override_id: u32, now: DateTime) -> (r: Result<(), Error>)
        requires
            old(self)@.wf(),
        ensures
            remove_override_post(old(self)@, final(self)@, time_slot_id, time_override_id, now, r),
            final(self)@.wf(),
            old(self)@.next_timeslot_id <= final(self)@.next_timeslot_id,
            old(self)@.next_override_id <= final(self)@.next_override_id,
            old(self)@.slots_disjoint() ==> final(self)@.slots_disjoint(),
    {
        let idx = match find_slot_index(&self.timeslots, time_slot_id) {
            Some(i) => i,
            None => {
                return Err(Error::InvalidArgument(InvalArgError::TimeSlotId));
            },
        };
        proof {
            assert(self@.timeslots[idx as int] == (self.timeslots@[idx as int].0, self.timeslots@[idx as int].1@));
        }
        let k = match find_override_index(&self.timeslots[idx].1.time_override, time_override_id) {
            Some(k) => k,
            None => {
                return Err(Error::InvalidArgument(InvalArgError::TimeOverrideId));
            },
        };
        let mut ts = self.timeslots[idx].1.duplicate();
        ts.time_override.remove(k);
        let ghost prev = self.timeslots@;
        let ghost slot = ts@;
        self.timeslots[idx] = (time_slot_id, ts);
        proof {
            assert(slots_view(self.timeslots@) =~= slots_view(prev).update(idx as int, (time_slot_id, slot)));
            if old(self)@.slots_disjoint() {
                lemma_disjoint_remove_override(slots_view(prev), idx as int, k as int);
            }
        }
        let new_active = self.active.update_timeslot_modified(&self.timeslots[idx].1, time_slot_id, &self.timeslots, self.default_state, &now);
        self.active = new_active;
        Ok(())
    }

    /// Checks that a state can be pushed to the actuator's output directly.
    pub fn set_state(&self, state: ActuatorState) -> (r: Result<(), Error>)
        ensures
            r == if self@.fits(state) {
                Ok::<(), Error>(())
            } else {
                Err(Error::InvalidArgument(InvalArgError::ActuatorState))
            },
    {
        if self.valid_state(&state) {
            Ok(())
        } else {
            Err(Error::InvalidArgument(InvalArgError::ActuatorState))
        }
    }

    /// Steps the rule in force once its end time is reached, `now` being the engine's clock;
    /// returns the engine's clock after the step.
    pub fn advance(&mut self, now: DateTime) -> (r: DateTime)
        ensures
            (final(self)@.active, r) == spec_advance(old(self)@, now),
            final(self)@ == old(self)@.with_active(final(self)@.active),
    {
        if let ActiveTimeSlotState::DefaultStateActive { next_id: Some(nid), next_override_id } = self.active.state {
            if let Some(i) = find_slot_index(&self.timeslots, nid) {
                proof {
                    assert(self@.timeslots[i as int] == (self.timeslots@[i as int].0, self.timeslots@[i as int].1@));
                }
                if let Some((iv, _)) = self.timeslots[i].1.time_interval_on(now.date) {
                    self.active = ActiveTimeSlot::timeslot(nid, next_override_id, iv.end, self.timeslots[i].1.actuator_state);
                    return now;
                }
            }
        }
        let next_now = if self.active.end_time == Time::max_value() {
            let date = if now.date.days < MAX_DAYS {
                Date { days: now.date.days + 1 }
            } else {
                now.date
            };
            DateTime { date, time: Time::min_value() }
        } else {
            DateTime { date: now.date, time: self.active.end_time }
        };
        self.active = ActiveTimeSlot::compute(&next_now, &self.timeslots, self.default_state);
        next_now
    }

    #[verifier::spinoff_prover]
    proof fn lemma_days_well_formed(&self)
        requires
            self@.wf(),
        ensures
            forall|i: int| 0 <= i < self.timeslots@.len() ==> (#[trigger] self.timeslots@[i]).1@.days_well_formed(),
    {
        assert forall|i: int| 0 <= i < self.timeslots@.len() implies (#[trigger] self.timeslots@[i]).1@.days_well_formed() by {
            assert(self@.timeslots[i] == (self.timeslots@[i].0, self.timeslots@[i].1@));
            assert(self@.slot_ok(self@.timeslots[i]));
            let ov = self.timeslots@[i].1@.time_override;
            assert forall|k: int| 0 <= k < ov.len() implies (#[trigger] ov[k]).1.days.is_well_formed() by {
                assert(ov[k].1.is_valid());
            }
        }
    }
}

impl ActiveTimeSlot {
    /// Seconds to wait before the rule in force ends, seen from `now`; a rule that lasts until
    /// the end of the day is waited on one minute more, into the next day.
    pub fn wait_seconds(&self, now: Time) -> (r: i64)
        ensures
            r == (self.end_time.rank() - now.rank() + if self.end_time == (Time { hour: 3, minute: 59 }) {
                1int
            } else {
                0int
            }) * 60,
    {
        let adjust: i64 = if self.end_time == Time::max_value() {
            1
        } else {
            0
        };
        (self.end_time.sub_minute(now) + adjust) * 60
    }
}

} // verus!

verus! {

proof fn lemma_find_last(s: Seq<(u32, TimeSlotModel)>, id: u32, slot: TimeSlotModel)
    requires
        forall|i: int| 0 <= i < s.len() ==> (#[trigger] s[i]).0 < id,
    ensures
        find_slot(s.push((id, slot)), id) == Some(s.len() as int),
{
    let t = s.push((id, slot));
    lemma_first_index(t, slot_id_is(id), 0);
    if let Some(j) = find_slot(t, id) {
        if j < s.len() {
            assert(t[j] == s[j]);
        }
    } else {
        assert(slot_id_is(id)(t[s.len() as int]));
    }
}

/// Adding a slot and then removing it gives back the slot table, the default state and the
/// override counter, while the slot counter has moved on by one. Where the rule in force was
/// the one found afresh at that time, it comes back as well.
pub proof fn lemma_add_then_remove(
    a0: ActuatorModel,
    a1: ActuatorModel,
    a2: ActuatorModel,
    period: TimePeriod,
    state: ActuatorState,
    enabled: bool,
    now: DateTime,
    id: u32,
    removed: Result<(), Error>,
)
    requires
        a0.wf(),
        a0.next_timeslot_id < u32::MAX,
        add_slot_post(a0, a1, period, state, enabled, now, Ok(id)),
        remove_slot_post(a1, a2, id, now, removed),
    ensures
        removed == Ok::<(), Error>(()),
        a2.timeslots == a0.timeslots,
        a2.default_state == a0.default_state,
        a2.info == a0.info,
        a2.next_override_id == a0.next_override_id,
        a2.next_timeslot_id == a0.next_timeslot_id + 1,
        a0.active == spec_compute(now, a0.timeslots, a0.default_state) ==> a2.active == a0.active,
{
    let slot = TimeSlotModel { enabled, actuator_state: state, time_period: period, time_override: Seq::empty() };
    assert(a0.slot_ok(a0.timeslots[0]) || a0.timeslots.len() == 0);
    assert forall|i: int| 0 <= i < a0.timeslots.len() implies (#[trigger] a0.timeslots[i]).0 < id by {
        assert(a0.slot_ok(a0.timeslots[i]));
    }
    lemma_find_last(a0.timeslots, id, slot);
    assert(a1.timeslots == a0.timeslots.push((id, slot)));
    assert(a1.timeslots.remove(a0.timeslots.len() as int) =~= a0.timeslots);
    let u = spec_update_added(a0.active, slot, id, now);
    assert(a1.active == u);
    assert(u != a0.active ==> names_slot(u, id));
    assert(a2.active == spec_update_removed(u, id, a0.timeslots, a0.default_state, now));
}

/// Whether each part of `patch` is either empty or equal to that part of `base`.
pub open spec fn patch_keeps(base: TimePeriod, patch: TimePeriod) -> bool {
    &&& (patch.time_interval.start == empty_time() || patch.time_interval.start == base.time_interval.start)
    &&& (patch.time_interval.end == empty_time() || patch.time_interval.end == base.time_interval.end)
    &&& (patch.date_range.start.days == EMPTY_DAYS || patch.date_range.start == base.date_range.start)
    &&& (patch.date_range.end.days == EMPTY_DAYS || patch.date_range.end == base.date_range.end)
    &&& (patch.days.bits == 0 || patch.days == base.days)
}

/// Setting a slot's period to what it already is, or with every part empty, succeeds and leaves
/// the slot table, the default state and the counters as they were. The rule in force stays too
/// where the slot is disabled and not named by it, and where it was the one found afresh at
/// that time, the slot had not already started and no two candidates start together.
pub proof fn lemma_set_same_period(a0: ActuatorModel, a1: ActuatorModel, id: u32, patch: TimePeriod, now: DateTime, r: Result<(), Error>)
    requires
        a0.wf(),
        a0.slots_disjoint(),
        find_slot(a0.timeslots, id) matches Some(i) && patch_keeps(a0.timeslots[i].1.time_period, patch),
        set_period_post(a0, a1, id, patch, now, r),
    ensures
        r == Ok::<(), Error>(()),
        a1.timeslots == a0.timeslots,
        a1.default_state == a0.default_state,
        a1.info == a0.info,
        a1.next_timeslot_id == a0.next_timeslot_id,
        a1.next_override_id == a0.next_override_id,
        !a0.timeslots[find_slot(a0.timeslots, id)->0].1.enabled && !names_slot(a0.active, id) ==> a1.active
            == a0.active,
        now.time.is_valid() && a0.active == spec_compute(now, a0.timeslots, a0.default_state) && no_ties(
            a0.timeslots,
            now,
        ) && not_started(a0.timeslots, id, now) ==> a1.active == a0.active,
{
    let s = a0.timeslots;
    let i = find_slot(s, id)->0;
    lemma_first_index(s, slot_id_is(id), 0);
    let base = s[i].1.time_period;
    assert(patched(base, patch) == base);
    assert(a0.slot_ok(s[i]));
    let slot = TimeSlotModel { time_period: base, ..s[i].1 };
    assert(slot == s[i].1);
    lemma_first_index(s, slot_meets(slot, id), 0);
    if let Some(j) = first_collision(s, slot, id) {
        assert(slot_meets(slot, id)(s[j]));
        assert(s[j].0 != id);
        assert(j != i);
        assert(!slots_overlap(s[i].1, s[j].1));
        assert(false);
    }
    assert(s.update(i, (id, slot)) =~= s);
    if now.time.is_valid() && a0.active == spec_compute(now, a0.timeslots, a0.default_state) && no_ties(s, now)
        && not_started(s, id, now) {
        lemma_set_period_keeps_fresh_rule(a0, a1, id, patch, now);
    }
}

/// A slot whose base period spans every date and weekday collides with any period that applies
/// on some day and whose time of day intersects the slot's.
pub proof fn lemma_everyday_slot_collides(slot: TimeSlotModel, p: TimePeriod, d: int)
    requires
        slot.time_period.date_range.start.days == crate::time::MIN_DAYS,
        slot.time_period.date_range.end.days == MAX_DAYS,
        slot.time_period.days.spec_is_all(),
        p.is_valid(),
        p.covers(d),
        slot.time_period.time_interval.spec_overlaps(&p.time_interval),
    ensures
        slot.overlaps_period(p),
{
    crate::time::lemma_weekday_shift(d, 0);
    assert(slot.time_period.days.has_day(crate::time::weekday_index(d)));
    assert(slot.time_period.covers(d) && p.covers(d));
}

/// On a day covered by the base periods of two slots that do not collide, the time intervals
/// that the slots take do not intersect, unless both take an override on that day.
pub proof fn lemma_intervals_apart(a: TimeSlotModel, b: TimeSlotModel, d: int)
    requires
        !slots_overlap(a, b),
        a.time_period.covers(d),
        b.time_period.covers(d),
        !(first_cover(a.time_override, d, 0) is Some && first_cover(b.time_override, d, 0) is Some),
    ensures
        a.interval_on(d) matches Some((ia, _)) && b.interval_on(d) matches Some((ib, _))
            && !ia.spec_overlaps(&ib),
{
    lemma_first_cover(a.time_override, d, 0);
    lemma_first_cover(b.time_override, d, 0);
    assert(a.time_period.spec_overlaps_dates(b.time_period) || !(a.time_period.covers(d) && b.time_period.covers(d)));
    if let Some(k) = first_cover(a.time_override, d, 0) {
        let o = a.time_override[k].1;
        if o.time_interval.spec_overlaps(&b.time_period.time_interval) {
            assert(o.covers(d) && b.time_period.covers(d));
            assert(o.spec_overlaps(b.time_period));
            assert(false);
        }
    } else if let Some(k) = first_cover(b.time_override, d, 0) {
        let o = b.time_override[k].1;
        if a.time_period.time_interval.spec_overlaps(&o.time_interval) {
            assert(o.covers(d) && a.time_period.covers(d));
            assert(o.spec_overlaps(a.time_period));
            assert(false);
        }
    }
}

} // verus!

verus! {

proof fn lemma_find_next_push(s: Seq<(u32, TimeSlotModel)>, x: (u32, TimeSlotModel), dt: DateTime, k: int)
    requires
        0 <= k <= s.len(),
    ensures
        spec_find_next(s.push(x), dt, k) == spec_find_next(s, dt, k),
    decreases k,
{
    if k > 0 {
        lemma_find_next_push(s, x, dt, k - 1);
        assert(s.push(x)[k - 1] == s[k - 1]);
    }
}

proof fn lemma_rank_injective(a: Time, b: Time)
    requires
        a.is_valid(),
        b.is_valid(),
        a.rank() == b.rank(),
    ensures
        a == b,
{
    let sa = crate::time::shift(a.hour as int);
    let sb = crate::time::shift(b.hour as int);
    assert(0 <= sa < 24 && 0 <= sb < 24);
    assert(sa == sb) by (nonlinear_arith)
        requires
            sa * 60 + a.minute == sb * 60 + b.minute,
            0 <= a.minute < 60,
            0 <= b.minute < 60,
    ;
}

/// Adding an enabled slot keeps the rule in force equal to the one found afresh at that time,
/// provided that it was so before, that the new slot has not already started at that time,
/// and that no candidate slot of the day starts when the new one does.
pub proof fn lemma_add_keeps_fresh_rule(
    a0: ActuatorModel,
    a1: ActuatorModel,
    period: TimePeriod,
    state: ActuatorState,
    now: DateTime,
    id: u32,
)
    requires
        a0.wf(),
        now.time.is_valid(),
        add_slot_post(a0, a1, period, state, true, now, Ok(id)),
        a0.active == spec_compute(now, a0.timeslots, a0.default_state),
        !(period.covers(now.date.days as int) && period.time_interval.start.rank() < now.time.rank()
            && now.time.rank() < period.time_interval.end.rank()),
        forall|i: int|
            0 <= i < a0.timeslots.len() && (#[trigger] next_candidate(a0.timeslots[i], now)) is Some
                ==> next_candidate(a0.timeslots[i], now)->0.time_interval.start.rank()
                != period.time_interval.start.rank(),
    ensures
        a1.active == spec_compute(now, a1.timeslots, a1.default_state),
{
    let slots = a0.timeslots;
    let n = slots.len() as int;
    let x = TimeSlotModel { enabled: true, actuator_state: state, time_period: period, time_override: Seq::empty() };
    let t = slots.push((id, x));
    assert(a1.timeslots == t);
    assert(a1.active == spec_update_added(a0.active, x, id, now));
    lemma_find_next_push(slots, (id, x), now, n);
    lemma_find_next(slots, now, n);
    assert(t[n] == (id, x));
    let f0 = spec_find_next(slots, now, n);
    assert(spec_find_next(t, now, n + 1) == {
        match next_candidate(t[n], now) {
            Some(c) => match f0 {
                Some(p) => if c.time_interval.start.rank() > p.time_interval.start.rank() {
                    f0
                } else {
                    Some(c)
                },
                None => Some(c),
            },
            None => f0,
        }
    });
    assert(first_cover(x.time_override, now.date.days as int, 0) is None);
    let iv = period.time_interval;
    if let Some(f) = f0 {
        let i = choose|i: int| 0 <= i < n && next_candidate(slots[i], now) == Some(f);
        assert(next_candidate(slots[i], now) is Some);
        assert(f.time_interval.start.rank() != iv.start.rank());
        assert(f.time_interval.start.rank() >= now.time.rank());
    }
    if period.covers(now.date.days as int) && iv.spec_contains(now.time) {
        assert(iv.start.rank() == now.time.rank());
        lemma_rank_injective(iv.start, now.time);
    }
    if f0 is None && period.covers(now.date.days as int) {
        assert(iv.start.rank() < iv.end.rank());
        assert(iv.end.rank() <= 1439) by {
            crate::time::lemma_day_bounds(iv.end);
        }
    }
    if let Some(f) = f0 {
        if f.time_interval.start != now.time && period.covers(now.date.days as int) && now.time.rank() < iv.start.rank() {
            assert(a0.active.end_time == f.time_interval.start);
        }
    }
}

} // verus!

verus! {

/// No two slots of the table are candidates at `dt` with the same start.
pub open spec fn no_ties(s: Seq<(u32, TimeSlotModel)>, dt: DateTime) -> bool {
    forall|i: int, j: int|
        0 <= i < s.len() && 0 <= j < s.len() && i != j && (#[trigger] next_candidate(s[i], dt)) is Some && (
        #[trigger] next_candidate(s[j], dt)) is Some ==> next_candidate(s[i], dt)->0.time_interval.start.rank()
            != next_candidate(s[j], dt)->0.time_interval.start.rank()
}

proof fn lemma_find_next_unique(s: Seq<(u32, TimeSlotModel)>, dt: DateTime, i: int)
    requires
        no_ties(s, dt),
        0 <= i < s.len(),
        next_candidate(s[i], dt) is Some,
        forall|j: int|
            0 <= j < s.len() && (#[trigger] next_candidate(s[j], dt)) is Some ==> next_candidate(s[i], dt)->0.time_interval.start.rank()
                <= next_candidate(s[j], dt)->0.time_interval.start.rank(),
    ensures
        spec_find_next(s, dt, s.len() as int) == next_candidate(s[i], dt),
{
    lemma_find_next(s, dt, s.len() as int);
    let c = spec_find_next(s, dt, s.len() as int)->0;
    let j = choose|j: int| 0 <= j < s.len() && next_candidate(s[j], dt) == Some(c);
    if j != i {
        assert(next_candidate(s[j], dt) is Some);
        assert(c.time_interval.start.rank() <= next_candidate(s[i], dt)->0.time_interval.start.rank());
    }
}

/// Removing a slot that is not the next one keeps the next one, when no two candidates start
/// together.
#[verifier::spinoff_prover]
proof fn lemma_remove_unnamed(s: Seq<(u32, TimeSlotModel)>, k: int, now: DateTime)
    requires
        0 <= k < s.len(),
        no_ties(s, now),
        spec_find_next(s, now, s.len() as int) matches Some(f) ==> f.id != s[k].0,
    ensures
        spec_find_next(s.remove(k), now, s.len() - 1) == spec_find_next(s, now, s.len() as int),
{
    let t = s.remove(k);
    lemma_find_next(s, now, s.len() as int);
    lemma_find_next(t, now, t.len() as int);
    match spec_find_next(s, now, s.len() as int) {
        None => {
            if let Some(c) = spec_find_next(t, now, t.len() as int) {
                let j = choose|j: int| 0 <= j < t.len() && next_candidate(t[j], now) == Some(c);
                let oj = if j < k { j } else { j + 1 };
                assert(t[j] == s[oj]);
            }
        },
        Some(f) => {
            let i = choose|i: int| 0 <= i < s.len() && next_candidate(s[i], now) == Some(f);
            assert(f.id == s[i].0);
            assert(i != k);
            let ti = if i < k { i } else { i - 1 };
            assert(t[ti] == s[i]);
            assert forall|j: int| 0 <= j < t.len() && (#[trigger] next_candidate(t[j], now)) is Some implies
                next_candidate(t[ti], now)->0.time_interval.start.rank() <= next_candidate(t[j], now)->0.time_interval.start.rank() by {
                let oj = if j < k { j } else { j + 1 };
                assert(t[j] == s[oj]);
                assert(next_candidate(s[oj], now) is Some);
            }
            assert forall|x: int, y: int|
                0 <= x < t.len() && 0 <= y < t.len() && x != y && (#[trigger] next_candidate(t[x], now)) is Some && (
                #[trigger] next_candidate(t[y], now)) is Some implies next_candidate(t[x], now)->0.time_interval.start.rank()
                    != next_candidate(t[y], now)->0.time_interval.start.rank() by {
                let ox = if x < k { x } else { x + 1 };
                let oy = if y < k { y } else { y + 1 };
                assert(t[x] == s[ox] && t[y] == s[oy]);
                assert(next_candidate(s[ox], now) is Some && next_candidate(s[oy], now) is Some);
            }
            lemma_find_next_unique(t, now, ti);
        },
    }
}

/// Removing a slot keeps the rule in force equal to the one found afresh at that time,
/// provided that it was so before and that no two candidate slots of the day start together.
pub proof fn lemma_remove_keeps_fresh_rule(a0: ActuatorModel, a1: ActuatorModel, id: u32, now: DateTime)
    requires
        a0.wf(),
        remove_slot_post(a0, a1, id, now, Ok(())),
        a0.active == spec_compute(now, a0.timeslots, a0.default_state),
        no_ties(a0.timeslots, now),
    ensures
        a1.active == spec_compute(now, a1.timeslots, a1.default_state),
{
    let s = a0.timeslots;
    let k = find_slot(s, id)->0;
    lemma_first_index(s, slot_id_is(id), 0);
    assert(a1.timeslots == s.remove(k));
    if !names_slot(a0.active, id) {
        lemma_remove_unnamed(s, k, now);
    }
}

} // verus!

verus! {

/// What replacing the slot at index `k` does to the next occurrence.
#[verifier::spinoff_prover]
proof fn lemma_find_next_replace(s: Seq<(u32, TimeSlotModel)>, k: int, x: TimeSlotModel, now: DateTime)
    requires
        0 <= k < s.len(),
        forall|i: int, j: int| 0 <= i < j < s.len() ==> (#[trigger] s[i]).0 < (#[trigger] s[j]).0,
        no_ties(s.update(k, (s[k].0, x)), now),
    ensures
        ({
            let t = s.update(k, (s[k].0, x));
            let cx = next_candidate((s[k].0, x), now);
            &&& (spec_find_next(s, now, s.len() as int) matches Some(f) && f.id != s[k].0 && (cx is None
                || cx->0.time_interval.start.rank() > f.time_interval.start.rank()))
                ==> spec_find_next(t, now, t.len() as int) == spec_find_next(s, now, s.len() as int)
            &&& (spec_find_next(s, now, s.len() as int) is None && cx is None) ==> spec_find_next(t, now, t.len() as int) is None
            &&& (cx matches Some(c) && forall|j: int|
                0 <= j < s.len() && j != k && (#[trigger] next_candidate(s[j], now)) is Some
                    ==> c.time_interval.start.rank() < next_candidate(s[j], now)->0.time_interval.start.rank())
                ==> spec_find_next(t, now, t.len() as int) == cx
        }),
{
    let t = s.update(k, (s[k].0, x));
    let cx = next_candidate((s[k].0, x), now);
    lemma_find_next(s, now, s.len() as int);
    lemma_find_next(t, now, t.len() as int);
    assert(t[k] == (s[k].0, x));
    if let Some(f) = spec_find_next(s, now, s.len() as int) {
        if f.id != s[k].0 && (cx is None || cx->0.time_interval.start.rank() > f.time_interval.start.rank()) {
            let i = choose|i: int| 0 <= i < s.len() && next_candidate(s[i], now) == Some(f) && forall|j: int|
                0 <= j < i && (#[trigger] next_candidate(s[j], now)) is Some ==> f.time_interval.start.rank()
                    < next_candidate(s[j], now)->0.time_interval.start.rank();
            assert(f.id == s[i].0);
            assert(i != k);
            assert(t[i] == s[i]);
            assert forall|j: int| 0 <= j < t.len() && (#[trigger] next_candidate(t[j], now)) is Some implies
                next_candidate(t[i], now)->0.time_interval.start.rank() <= next_candidate(t[j], now)->0.time_interval.start.rank() by {
                if j != k {
                    assert(t[j] == s[j]);
                }
            }
            lemma_find_next_unique(t, now, i);
        }
    } else {
        if cx is None {
            if let Some(g) = spec_find_next(t, now, t.len() as int) {
                let j = choose|j: int| 0 <= j < t.len() && next_candidate(t[j], now) == Some(g);
                if j != k {
                    assert(t[j] == s[j]);
                }
            }
        }
    }
    if let Some(c) = cx {
        if forall|j: int|
            0 <= j < s.len() && j != k && (#[trigger] next_candidate(s[j], now)) is Some
                ==> c.time_interval.start.rank() < next_candidate(s[j], now)->0.time_interval.start.rank() {
            assert forall|j: int| 0 <= j < t.len() && (#[trigger] next_candidate(t[j], now)) is Some implies
                next_candidate(t[k], now)->0.time_interval.start.rank() <= next_candidate(t[j], now)->0.time_interval.start.rank() by {
                if j != k {
                    assert(t[j] == s[j]);
                }
            }
            lemma_find_next_unique(t, now, k);
        }
    }
}

} // verus!

verus! {

/// Whether an enabled slot has already started at `now` on its interval of that day.
pub open spec fn started_before(x: TimeSlotModel, now: DateTime) -> bool {
    x.enabled && (x.interval_on(now.date.days as int) matches Some((iv, _)) && iv.start.rank() < now.time.rank()
        && now.time.rank() < iv.end.rank())
}

/// Whether the interval that a slot takes on the day of `now` is valid.
pub open spec fn valid_on(x: TimeSlotModel, now: DateTime) -> bool {
    x.interval_on(now.date.days as int) matches Some((iv, _)) ==> iv.is_valid()
}

/// Changing the slot at index `k` into `x` keeps the rule in force equal to the one found afresh
/// at `now`, provided that it was so before, that the changed slot has not already started at
/// that time, and that no two candidate slots of the day start together afterwards.
#[verifier::spinoff_prover]
pub proof fn lemma_modify_keeps_fresh_rule(
    s: Seq<(u32, TimeSlotModel)>,
    k: int,
    x: TimeSlotModel,
    default_state: ActuatorState,
    now: DateTime,
    a: ActiveTimeSlot,
)
    requires
        0 <= k < s.len(),
        forall|i: int, j: int| 0 <= i < j < s.len() ==> (#[trigger] s[i]).0 < (#[trigger] s[j]).0,
        now.time.is_valid(),
        valid_on(x, now),
        !started_before(x, now),
        a == spec_compute(now, s, default_state),
        no_ties(s.update(k, (s[k].0, x)), now),
    ensures
        spec_update_modified(a, x, s[k].0, s.update(k, (s[k].0, x)), default_state, now) == spec_compute(
            now,
            s.update(k, (s[k].0, x)),
            default_state,
        ),
{
    let id = s[k].0;
    let t = s.update(k, (id, x));
    lemma_find_next_replace(s, k, x, now);
    lemma_find_next(s, now, s.len() as int);
    let cx = next_candidate((id, x), now);
    let f0 = spec_find_next(s, now, s.len() as int);
    if let Some(f) = f0 {
        let i = choose|i: int| 0 <= i < s.len() && next_candidate(s[i], now) == Some(f) && forall|j: int|
            0 <= j < i && (#[trigger] next_candidate(s[j], now)) is Some ==> f.time_interval.start.rank()
                < next_candidate(s[j], now)->0.time_interval.start.rank();
        assert(f.id == s[i].0);
        assert(f.time_interval.start.rank() >= now.time.rank());
        if f.id == id {
            assert(i == k);
        } else {
            assert(i != k);
            assert(t[i] == s[i]);
            if let Some(c) = cx {
                assert(t[k] == (id, x));
                assert(next_candidate(t[k], now) is Some && next_candidate(t[i], now) is Some);
                assert(c.time_interval.start.rank() != f.time_interval.start.rank());
            }
        }
    }
    if let Some((iv, oid)) = x.interval_on(now.date.days as int) {
        if x.enabled {
            if iv.spec_contains(now.time) {
                lemma_rank_injective(iv.start, now.time);
            }
            if let Some(c) = cx {
                assert(c.time_interval == iv);
                assert(c.time_interval.start.rank() >= now.time.rank());
                if c.time_interval.start.rank() == now.time.rank() {
                    assert(iv.spec_contains(now.time));
                }
            }
            if f0 is None {
                crate::time::lemma_day_bounds(iv.end);
            }
        }
    }
    if let Some(c) = cx {
        assert forall|j: int|
            0 <= j < s.len() && j != k && (#[trigger] next_candidate(s[j], now)) is Some implies next_candidate(s[j], now)->0.time_interval.start.rank()
                != c.time_interval.start.rank() by {
            assert(t[j] == s[j]);
            assert(t[k] == (id, x));
            assert(next_candidate(t[k], now) is Some);
        }
        if let Some(f) = f0 {
            assert forall|j: int|
                0 <= j < s.len() && (#[trigger] next_candidate(s[j], now)) is Some implies f.time_interval.start.rank()
                    <= next_candidate(s[j], now)->0.time_interval.start.rank() by {}
        }
    }
}

} // verus!

verus! {

proof fn lemma_valid_on(x: TimeSlotModel, now: DateTime)
    requires
        x.time_period.is_valid(),
        forall|i: int| 0 <= i < x.time_override.len() ==> (#[trigger] x.time_override[i]).1.is_valid(),
    ensures
        valid_on(x, now),
{
    lemma_first_cover(x.time_override, now.date.days as int, 0);
}

/// Enabling the disabled slot at index `k` keeps the rule in force equal to the one found
/// afresh at `now`, under the conditions of `lemma_modify_keeps_fresh_rule`.
#[verifier::spinoff_prover]
pub proof fn lemma_enable_keeps_fresh_rule(
    s: Seq<(u32, TimeSlotModel)>,
    k: int,
    x: TimeSlotModel,
    default_state: ActuatorState,
    now: DateTime,
    a: ActiveTimeSlot,
)
    requires
        0 <= k < s.len(),
        forall|i: int, j: int| 0 <= i < j < s.len() ==> (#[trigger] s[i]).0 < (#[trigger] s[j]).0,
        !s[k].1.enabled,
        x.enabled,
        now.time.is_valid(),
        valid_on(x, now),
        !started_before(x, now),
        a == spec_compute(now, s, default_state),
        no_ties(s.update(k, (s[k].0, x)), now),
    ensures
        spec_update_added(a, x, s[k].0, now) == spec_compute(now, s.update(k, (s[k].0, x)), default_state),
{
    let id = s[k].0;
    let t = s.update(k, (id, x));
    lemma_modify_keeps_fresh_rule(s, k, x, default_state, now, a);
    lemma_find_next(s, now, s.len() as int);
    assert(next_candidate(s[k], now) is None);
    let cx = next_candidate((id, x), now);
    let f0 = spec_find_next(s, now, s.len() as int);
    if let Some(f) = f0 {
        let i = choose|i: int| 0 <= i < s.len() && next_candidate(s[i], now) == Some(f) && forall|j: int|
            0 <= j < i && (#[trigger] next_candidate(s[j], now)) is Some ==> f.time_interval.start.rank()
                < next_candidate(s[j], now)->0.time_interval.start.rank();
        assert(i != k);
        assert(f.id == s[i].0);
        assert(f.id != id);
        assert(t[i] == s[i]);
        if let Some(c) = cx {
            assert(t[k] == (id, x));
            assert(next_candidate(t[k], now) is Some && next_candidate(t[i], now) is Some);
            assert(c.time_interval.start.rank() != f.time_interval.start.rank());
        }
    }
    if let Some((iv, oid)) = x.interval_on(now.date.days as int) {
        if let Some(c) = cx {
            assert(c.time_interval == iv);
        }
        if iv.spec_contains(now.time) {
            assert(iv.start.rank() == now.time.rank());
            assert(cx is Some);
        }
        if f0 is None {
            crate::time::lemma_day_bounds(iv.end);
        }
    }
}

} // verus!

verus! {

/// Whether the slot of ID `id` has not already started at `now` in the table `s`.
pub open spec fn not_started(s: Seq<(u32, TimeSlotModel)>, id: u32, now: DateTime) -> bool {
    forall|i: int| 0 <= i < s.len() && (#[trigger] s[i]).0 == id ==> !started_before(s[i].1, now)
}

/// Setting a slot's period keeps the rule in force equal to the one found afresh at that time,
/// provided that it was so before, that the slot has not already started then, and that no two
/// candidate slots of the day start together afterwards.
pub proof fn lemma_set_period_keeps_fresh_rule(a0: ActuatorModel, a1: ActuatorModel, id: u32, patch: TimePeriod, now: DateTime)
    requires
        a0.wf(),
        now.time.is_valid(),
        set_period_post(a0, a1, id, patch, now, Ok(())),
        a0.active == spec_compute(now, a0.timeslots, a0.default_state),
        no_ties(a1.timeslots, now),
        not_started(a1.timeslots, id, now),
    ensures
        a1.active == spec_compute(now, a1.timeslots, a1.default_state),
{
    let s = a0.timeslots;
    let i = find_slot(s, id)->0;
    lemma_first_index(s, slot_id_is(id), 0);
    let x = TimeSlotModel { time_period: patched(s[i].1.time_period, patch), ..s[i].1 };
    assert(a1.timeslots == s.update(i, (id, x)));
    assert(a1.timeslots[i] == (id, x));
    assert(a0.slot_ok(s[i]));
    lemma_valid_on(x, now);
    lemma_modify_keeps_fresh_rule(s, i, x, a0.default_state, now, a0.active);
}

/// Switching a slot on or off keeps the rule in force equal to the one found afresh at that
/// time, provided that it was so before, that the slot has not already started then, and that
/// no two candidate slots of the day start together afterwards.
pub proof fn lemma_set_enabled_keeps_fresh_rule(a0: ActuatorModel, a1: ActuatorModel, id: u32, enabled: bool, now: DateTime)
    requires
        a0.wf(),
        now.time.is_valid(),
        set_enabled_post(a0, a1, id, enabled, now, Ok(())),
        a0.active == spec_compute(now, a0.timeslots, a0.default_state),
        no_ties(a1.timeslots, now),
        not_started(a1.timeslots, id, now),
    ensures
        a1.active == spec_compute(now, a1.timeslots, a1.default_state),
{
    let s = a0.timeslots;
    let i = find_slot(s, id)->0;
    lemma_first_index(s, slot_id_is(id), 0);
    let x = TimeSlotModel { enabled, ..s[i].1 };
    assert(a1.timeslots == s.update(i, (id, x)));
    assert(a1.timeslots[i] == (id, x));
    assert(a0.slot_ok(s[i]));
    lemma_valid_on(x, now);
    if s[i].1.enabled == enabled {
        assert(x == s[i].1);
        assert(s.update(i, (id, x)) =~= s);
    } else if enabled {
        lemma_enable_keeps_fresh_rule(s, i, x, a0.default_state, now, a0.active);
    } else {
        lemma_modify_keeps_fresh_rule(s, i, x, a0.default_state, now, a0.active);
    }
}

} // verus!

verus! {

/// In a table of slots that do not collide, the entries that two slots have in the schedule of
/// a day do not intersect, where each slot taking an interval that day has a base period
/// covering it and at most one slot takes an override that day.
pub proof fn lemma_day_entries_apart(s: Seq<(u32, TimeSlotModel)>, d: int)
    requires
        disjoint_slots(s),
        forall|i: int| 0 <= i < s.len() && (#[trigger] s[i]).1.interval_on(d) is Some ==> s[i].1.time_period.covers(d),
        forall|i: int, j: int|
            0 <= i < s.len() && 0 <= j < s.len() && i != j ==> !(first_cover((#[trigger] s[i]).1.time_override, d, 0) is Some
                && first_cover((#[trigger] s[j]).1.time_override, d, 0) is Some),
    ensures
        forall|i: int, j: int|
            0 <= i < s.len() && 0 <= j < s.len() && i != j && (#[trigger] day_entry(s[i], d)) is Some && (
            #[trigger] day_entry(s[j], d)) is Some ==> !day_entry(s[i], d)->0.time_interval.spec_overlaps(
                &day_entry(s[j], d)->0.time_interval,
            ),
{
    assert forall|i: int, j: int|
        0 <= i < s.len() && 0 <= j < s.len() && i != j && (#[trigger] day_entry(s[i], d)) is Some && (
        #[trigger] day_entry(s[j], d)) is Some implies !day_entry(s[i], d)->0.time_interval.spec_overlaps(
            &day_entry(s[j], d)->0.time_interval,
        ) by {
        lemma_intervals_apart(s[i].1, s[j].1, d);
    }
}

} // verus!
