use servo_scheduler::actuator::{
    patch_period, ActiveTimeSlot, ActiveTimeSlotState, Actuator, ActuatorInfo, ActuatorState,
    ActuatorType,
};
use servo_scheduler::rpc::{Error, InvalArgError};
use servo_scheduler::schedule::{compute_schedule, find_next_timeslot};
use servo_scheduler::time::{Date, DateRange, DateTime, Time, TimeInterval, WeekdaySet};
use servo_scheduler::time_slot::{TimePeriod, TimeSlot};
use servo_scheduler::utils::ValidCheck;

fn key(x: f64) -> i64 {
    let bits = x.to_bits() as i64;
    bits ^ ((((bits >> 63) as u64) >> 1) as i64)
}

fn t(hour: u8, minute: u8) -> Time {
    Time { hour, minute }
}

fn ymd(y: i32, m: u32, d: u32) -> Date {
    Date::from_ymd(y, m, d).unwrap()
}

fn period(start: Time, end: Time, from: Date, to: Date, days: WeekdaySet) -> TimePeriod {
    TimePeriod {
        time_interval: TimeInterval { start, end },
        date_range: DateRange { start: from, end: to },
        days,
    }
}

fn toggle_actuator() -> Actuator {
    Actuator::new(
        ActuatorInfo { name: "lamp".to_string(), actuator_type: ActuatorType::Toggle },
        ActuatorState::Toggle(false),
    )
}

fn float_actuator() -> Actuator {
    Actuator::new(
        ActuatorInfo {
            name: "valve".to_string(),
            actuator_type: ActuatorType::FloatValue { min: key(0.0), max: key(1.0) },
        },
        ActuatorState::FloatValue(key(0.5)),
    )
}

fn noon(date: Date) -> DateTime {
    DateTime { date, time: t(12, 0) }
}

#[test]
fn overlap_rejection() {
    let mut a = toggle_actuator();
    let day = ymd(2017, 5, 8);
    let now = noon(day);
    let pa = period(t(23, 5), t(3, 5), day, day, WeekdaySet::all());
    assert_eq!(a.add_time_slot(pa, ActuatorState::Toggle(true), true, now), Ok(0));
    let pb = period(t(18, 5), t(23, 4), day, day, WeekdaySet::all());
    assert_eq!(a.add_time_slot(pb, ActuatorState::Toggle(true), true, now), Ok(1));
    let before = a.timeslots().len();
    let pc = period(t(22, 0), t(23, 6), day, day, WeekdaySet::all());
    assert_eq!(a.add_time_slot(pc, ActuatorState::Toggle(true), true, now), Err(Error::TimeSlotOverlap(0)));
    assert_eq!(a.timeslots().len(), before);
    assert_eq!(a.next_timeslot_id(), 2);
}

#[test]
fn override_takes_priority() {
    let mut a = float_actuator();
    let now = noon(ymd(2024, 6, 14));
    let px = period(t(9, 0), t(10, 0), Date::min_date(), Date::max_date(), WeekdaySet::all());
    assert_eq!(a.add_time_slot(px, ActuatorState::FloatValue(key(0.2)), true, now), Ok(0));
    let d = ymd(2024, 6, 15);
    let po = period(t(11, 0), t(12, 0), d, d, WeekdaySet::all());
    assert_eq!(a.time_slot_add_time_override(0, po, now), Ok(0));
    let slot = &a.timeslots()[0].1;
    assert_eq!(slot.time_interval_on(d), Some((TimeInterval { start: t(11, 0), end: t(12, 0) }, Some(0))));
    assert_eq!(
        slot.time_interval_on(ymd(2024, 6, 16)),
        Some((TimeInterval { start: t(9, 0), end: t(10, 0) }, None))
    );
}

#[test]
fn patch_semantics() {
    let mut a = toggle_actuator();
    let day = ymd(2017, 5, 8);
    let now = noon(day);
    let pa = period(t(23, 5), t(3, 5), day, day, WeekdaySet::all());
    a.add_time_slot(pa, ActuatorState::Toggle(true), true, now).unwrap();
    let pb = period(t(18, 5), t(23, 4), day, day, WeekdaySet::all());
    a.add_time_slot(pb, ActuatorState::Toggle(true), true, now).unwrap();
    let patch = period(t(23, 10), t(3, 5), Date::empty_date(), Date::empty_date(), WeekdaySet::empty());
    assert_eq!(a.time_slot_set_time_period(0, patch, now), Ok(()));
    let p = a.timeslots()[0].1.time_period;
    assert_eq!(p, period(t(23, 10), t(3, 5), day, day, WeekdaySet::all()));
}

#[test]
fn type_mismatch() {
    let mut a = toggle_actuator();
    assert_eq!(
        a.set_default_state(ActuatorState::FloatValue(key(0.3))),
        Err(Error::InvalidArgument(InvalArgError::ActuatorState))
    );
    assert_eq!(*a.default_state(), ActuatorState::Toggle(false));
}

#[test]
fn float_bounds() {
    let mut a = float_actuator();
    let day = ymd(2024, 6, 15);
    let p = period(t(9, 0), t(10, 0), day, day, WeekdaySet::all());
    assert_eq!(
        a.add_time_slot(p, ActuatorState::FloatValue(key(1.5)), true, noon(day)),
        Err(Error::InvalidArgument(InvalArgError::ActuatorState))
    );
    assert_eq!(a.add_time_slot(p, ActuatorState::FloatValue(key(1.0)), true, noon(day)), Ok(0));
}

#[test]
fn active_slot_progression() {
    let mut a = toggle_actuator();
    let day = ymd(2024, 6, 17);
    let next = ymd(2024, 6, 18);
    let at_0430 = DateTime { date: day, time: t(4, 30) };
    let p = period(t(5, 0), t(6, 0), day, next, WeekdaySet::all());
    assert_eq!(a.add_time_slot(p, ActuatorState::Toggle(true), true, at_0430), Ok(0));
    let s = a.active_timeslot();
    assert_eq!(s.state, ActiveTimeSlotState::DefaultStateActive { next_id: Some(0), next_override_id: None });
    assert_eq!(s.end_time, t(5, 0));
    assert_eq!(s.actuator_state, ActuatorState::Toggle(false));
    assert_eq!(s.wait_seconds(t(4, 30)), 30 * 60);

    let now = a.advance(at_0430);
    let s = a.active_timeslot();
    assert_eq!(s.state, ActiveTimeSlotState::TimeSlotActive { id: 0, override_id: None });
    assert_eq!(s.end_time, t(6, 0));
    assert_eq!(s.actuator_state, ActuatorState::Toggle(true));

    let now = a.advance(DateTime { date: now.date, time: t(5, 0) });
    let s = a.active_timeslot();
    assert_eq!(s.state, ActiveTimeSlotState::DefaultStateActive { next_id: None, next_override_id: None });
    assert_eq!(s.end_time, Time::max_value());
    assert_eq!(s.actuator_state, ActuatorState::Toggle(false));
    assert_eq!(now, DateTime { date: day, time: t(6, 0) });
    assert_eq!(s.wait_seconds(t(6, 0)), (1439 - 120 + 1) * 60);

    let now = a.advance(now);
    assert_eq!(now, DateTime { date: next, time: t(4, 0) });
    let s = a.active_timeslot();
    assert_eq!(s.state, ActiveTimeSlotState::DefaultStateActive { next_id: Some(0), next_override_id: None });
    assert_eq!(s.end_time, t(5, 0));
}

#[test]
fn compute_at_slot_start() {
    let mut a = toggle_actuator();
    let day = ymd(2024, 6, 17);
    let p = period(t(5, 0), t(6, 0), day, day, WeekdaySet::all());
    a.add_time_slot(p, ActuatorState::Toggle(true), true, DateTime { date: day, time: t(4, 0) }).unwrap();
    let at5 = DateTime { date: day, time: t(5, 0) };
    let c = ActiveTimeSlot::compute(&at5, a.timeslots(), ActuatorState::Toggle(false));
    assert_eq!(c, ActiveTimeSlot::timeslot(0, None, t(6, 0), ActuatorState::Toggle(true)));
    let at7 = DateTime { date: day, time: t(7, 0) };
    let c = ActiveTimeSlot::compute(&at7, a.timeslots(), ActuatorState::Toggle(false));
    assert_eq!(c, ActiveTimeSlot::default_state(ActuatorState::Toggle(false)));
}

#[test]
fn add_slot_running_now_becomes_active() {
    let mut a = toggle_actuator();
    let day = ymd(2024, 6, 17);
    let p = period(t(5, 0), t(6, 0), day, day, WeekdaySet::all());
    a.add_time_slot(p, ActuatorState::Toggle(true), true, DateTime { date: day, time: t(5, 30) }).unwrap();
    assert_eq!(
        a.active_timeslot(),
        ActiveTimeSlot::timeslot(0, None, t(6, 0), ActuatorState::Toggle(true))
    );
    a.time_slot_set_actuator_state(0, ActuatorState::Toggle(false)).unwrap();
    assert_eq!(a.active_timeslot().actuator_state, ActuatorState::Toggle(false));
    a.time_slot_set_enabled(0, false, DateTime { date: day, time: t(5, 30) }).unwrap();
    assert_eq!(
        a.active_timeslot().state,
        ActiveTimeSlotState::DefaultStateActive { next_id: None, next_override_id: None }
    );
}

#[test]
fn add_then_remove_restores_table() {
    let mut a = toggle_actuator();
    let day = ymd(2024, 6, 17);
    let now = DateTime { date: day, time: t(4, 0) };
    let first = period(t(8, 0), t(9, 0), day, day, WeekdaySet::all());
    a.add_time_slot(first, ActuatorState::Toggle(true), true, now).unwrap();
    let before = a.active_timeslot();
    let second = period(t(6, 0), t(7, 0), day, day, WeekdaySet::all());
    let id = a.add_time_slot(second, ActuatorState::Toggle(true), true, now).unwrap();
    assert_eq!(id, 1);
    assert_eq!(a.active_timeslot().state, ActiveTimeSlotState::DefaultStateActive { next_id: Some(1), next_override_id: None });
    assert_eq!(a.remove_time_slot(id, now), Ok(()));
    assert_eq!(a.timeslots().len(), 1);
    assert_eq!(a.timeslots()[0].0, 0);
    assert_eq!(a.active_timeslot(), before);
    assert_eq!(a.next_timeslot_id(), 2);
    assert_eq!(a.remove_time_slot(id, now), Err(Error::InvalidArgument(InvalArgError::TimeSlotId)));
}

#[test]
fn set_same_period_changes_nothing() {
    let mut a = toggle_actuator();
    let day = ymd(2024, 6, 17);
    let now = noon(day);
    let p = period(t(8, 0), t(9, 0), day, day, WeekdaySet::all());
    a.add_time_slot(p, ActuatorState::Toggle(true), true, now).unwrap();
    let empty = period(Time::empty(), Time::empty(), Date::empty_date(), Date::empty_date(), WeekdaySet::empty());
    assert_eq!(a.time_slot_set_time_period(0, empty, now), Ok(()));
    assert_eq!(a.timeslots()[0].1.time_period, p);
    assert_eq!(a.time_slot_set_time_period(0, p, now), Ok(()));
    assert_eq!(a.timeslots()[0].1.time_period, p);
    assert_eq!(a.next_timeslot_id(), 1);
}

#[test]
fn set_period_errors() {
    let mut a = toggle_actuator();
    let day = ymd(2024, 6, 17);
    let now = noon(day);
    a.add_time_slot(period(t(8, 0), t(9, 0), day, day, WeekdaySet::all()), ActuatorState::Toggle(true), true, now).unwrap();
    a.add_time_slot(period(t(10, 0), t(11, 0), day, day, WeekdaySet::all()), ActuatorState::Toggle(true), true, now).unwrap();
    let bad = period(t(9, 0), t(8, 0), Date::empty_date(), Date::empty_date(), WeekdaySet::empty());
    assert_eq!(a.time_slot_set_time_period(0, bad, now), Err(Error::InvalidArgument(InvalArgError::TimePeriod)));
    let clash = period(t(8, 0), t(10, 30), Date::empty_date(), Date::empty_date(), WeekdaySet::empty());
    assert_eq!(a.time_slot_set_time_period(0, clash, now), Err(Error::TimeSlotOverlap(1)));
    assert_eq!(a.time_slot_set_time_period(7, clash, now), Err(Error::InvalidArgument(InvalArgError::TimeSlotId)));
}

#[test]
fn override_errors() {
    let mut a = toggle_actuator();
    let d1 = ymd(2024, 6, 17);
    let now = noon(d1);
    let all = WeekdaySet::all();
    a.add_time_slot(period(t(8, 0), t(9, 0), Date::min_date(), Date::max_date(), all), ActuatorState::Toggle(true), true, now).unwrap();
    a.add_time_slot(period(t(10, 0), t(11, 0), Date::min_date(), Date::max_date(), all), ActuatorState::Toggle(true), true, now).unwrap();
    assert_eq!(a.time_slot_add_time_override(0, period(t(8, 30), t(8, 0), d1, d1, all), now), Err(Error::InvalidArgument(InvalArgError::TimePeriod)));
    assert_eq!(a.time_slot_add_time_override(0, period(t(10, 30), t(12, 0), d1, d1, all), now), Err(Error::TimeSlotOverlap(1)));
    assert_eq!(a.time_slot_add_time_override(5, period(t(12, 0), t(13, 0), d1, d1, all), now), Err(Error::InvalidArgument(InvalArgError::TimeSlotId)));
    assert_eq!(a.time_slot_add_time_override(0, period(t(12, 0), t(13, 0), d1, d1, all), now), Ok(0));
    assert_eq!(a.time_slot_add_time_override(0, period(t(14, 0), t(15, 0), d1, d1, all), now), Err(Error::TimeOverrideOverlap(0)));
    let d2 = ymd(2024, 6, 18);
    assert_eq!(a.time_slot_add_time_override(0, period(t(14, 0), t(15, 0), d2, d2, all), now), Ok(1));
    assert_eq!(a.next_override_id(), 2);
    assert_eq!(a.time_slot_remove_time_override(0, 9, now), Err(Error::InvalidArgument(InvalArgError::TimeOverrideId)));
    assert_eq!(a.time_slot_remove_time_override(3, 0, now), Err(Error::InvalidArgument(InvalArgError::TimeSlotId)));
    assert_eq!(a.time_slot_remove_time_override(0, 0, now), Ok(()));
    assert_eq!(a.timeslots()[0].1.time_override.len(), 1);
    assert_eq!(a.timeslots()[0].1.time_override[0].0, 1);
}

#[test]
fn everyday_slot_conflicts() {
    let mut a = toggle_actuator();
    let now = noon(ymd(2024, 6, 17));
    let p = period(t(8, 0), t(9, 0), Date::min_date(), Date::max_date(), WeekdaySet::all());
    a.add_time_slot(p, ActuatorState::Toggle(true), true, now).unwrap();
    let d = ymd(2030, 1, 1);
    let q = period(t(8, 59), t(10, 0), d, d, WeekdaySet::all());
    assert_eq!(a.add_time_slot(q, ActuatorState::Toggle(true), true, now), Err(Error::TimeSlotOverlap(0)));
    let q2 = period(t(9, 0), t(10, 0), d, d, WeekdaySet::all());
    assert_eq!(a.add_time_slot(q2, ActuatorState::Toggle(true), true, now), Ok(1));
}

#[test]
fn weekday_restricted_slots_do_not_collide() {
    let mut a = toggle_actuator();
    let now = noon(ymd(2024, 6, 17));
    let monday = WeekdaySet::from_bits(1).unwrap();
    let tuesday = WeekdaySet::from_bits(2).unwrap();
    let p = period(t(8, 0), t(9, 0), ymd(2024, 6, 17), ymd(2024, 6, 23), monday);
    a.add_time_slot(p, ActuatorState::Toggle(true), true, now).unwrap();
    let q = period(t(8, 0), t(9, 0), ymd(2024, 6, 17), ymd(2024, 6, 23), tuesday);
    assert_eq!(a.add_time_slot(q, ActuatorState::Toggle(true), true, now), Ok(1));
    let r = period(t(8, 30), t(9, 30), ymd(2024, 6, 24), ymd(2024, 6, 24), monday);
    assert_eq!(a.add_time_slot(r, ActuatorState::Toggle(true), true, now), Ok(2));
}

#[test]
fn default_state_update() {
    let mut a = toggle_actuator();
    assert_eq!(a.set_default_state(ActuatorState::Toggle(true)), Ok(()));
    assert_eq!(*a.default_state(), ActuatorState::Toggle(true));
    assert_eq!(a.active_timeslot().actuator_state, ActuatorState::Toggle(true));
    assert_eq!(a.set_state(ActuatorState::Toggle(false)), Ok(()));
    assert_eq!(a.set_state(ActuatorState::FloatValue(0)), Err(Error::InvalidArgument(InvalArgError::ActuatorState)));
}

#[test]
fn invalid_period_rejected() {
    let mut a = toggle_actuator();
    let day = ymd(2024, 6, 17);
    let p = period(t(8, 0), t(9, 0), day, day, WeekdaySet::empty());
    assert_eq!(a.add_time_slot(p, ActuatorState::Toggle(true), true, noon(day)), Err(Error::InvalidArgument(InvalArgError::TimePeriod)));
    let p = period(t(8, 0), t(8, 0), day, day, WeekdaySet::all());
    assert!(!p.valid());
}

#[test]
fn schedule_of_days() {
    let mut a = toggle_actuator();
    let d = ymd(2024, 6, 17);
    let now = noon(d);
    let all = WeekdaySet::all();
    a.add_time_slot(period(t(20, 0), t(21, 0), d, ymd(2024, 6, 18), all), ActuatorState::Toggle(true), true, now).unwrap();
    a.add_time_slot(period(t(6, 0), t(7, 0), d, d, all), ActuatorState::Toggle(true), true, now).unwrap();
    a.add_time_slot(period(t(1, 0), t(2, 0), d, d, all), ActuatorState::Toggle(true), false, now).unwrap();
    let s = compute_schedule(a.timeslots(), d, 3);
    assert_eq!(s.len(), 3);
    assert_eq!(s[0].0, d);
    let ids: Vec<u32> = s[0].1.iter().map(|e| e.id).collect();
    assert_eq!(ids, vec![1, 0]);
    let ids: Vec<u32> = s[1].1.iter().map(|e| e.id).collect();
    assert_eq!(ids, vec![0]);
    assert!(s[2].1.is_empty());
    let next = find_next_timeslot(a.timeslots(), &DateTime { date: d, time: t(6, 30) }).unwrap();
    assert_eq!(next.id, 0);
    assert_eq!(next.time_interval.start, t(20, 0));
    assert!(find_next_timeslot(a.timeslots(), &DateTime { date: d, time: t(21, 0) }).is_none());
}

#[test]
fn patch_period_keeps_empty_parts() {
    let base = period(t(8, 0), t(9, 0), ymd(2024, 1, 1), ymd(2024, 2, 1), WeekdaySet::all());
    let patch = period(Time::empty(), t(10, 0), Date::empty_date(), ymd(2024, 3, 1), WeekdaySet::empty());
    let r = patch_period(&base, &patch);
    assert_eq!(r, period(t(8, 0), t(10, 0), ymd(2024, 1, 1), ymd(2024, 3, 1), WeekdaySet::all()));
}

#[test]
fn time_slot_copy() {
    let s = TimeSlot::new(true, ActuatorState::Toggle(true), period(t(8, 0), t(9, 0), Date::min_date(), Date::max_date(), WeekdaySet::all()));
    let c = s.duplicate();
    assert_eq!(c.time_period, s.time_period);
    assert_eq!(c.enabled, s.enabled);
    assert!(c.time_override.is_empty());
}

#[test]
fn effective_intervals_stay_apart() {
    let mut a = toggle_actuator();
    let d = ymd(2024, 6, 17);
    let now = noon(d);
    let all = WeekdaySet::all();
    a.add_time_slot(period(t(8, 0), t(9, 0), Date::min_date(), Date::max_date(), all), ActuatorState::Toggle(true), true, now).unwrap();
    a.add_time_slot(period(t(9, 0), t(10, 0), Date::min_date(), Date::max_date(), all), ActuatorState::Toggle(true), true, now).unwrap();
    assert_eq!(
        a.time_slot_add_time_override(1, period(t(8, 30), t(9, 30), d, d, all), now),
        Err(Error::TimeSlotOverlap(0))
    );
    a.time_slot_add_time_override(1, period(t(10, 0), t(11, 0), d, d, all), now).unwrap();
    for day in [d, ymd(2024, 6, 18)] {
        let x = a.timeslots()[0].1.time_interval_on(day).unwrap().0;
        let y = a.timeslots()[1].1.time_interval_on(day).unwrap().0;
        assert!(!x.overlaps(&y));
    }
}

#[test]
fn disabled_slot_never_becomes_the_rule() {
    let mut a = toggle_actuator();
    let day = ymd(2024, 6, 17);
    let at_0530 = DateTime { date: day, time: t(5, 30) };
    let before = a.active_timeslot();
    let p = period(t(5, 0), t(6, 0), day, day, WeekdaySet::all());
    assert_eq!(a.add_time_slot(p, ActuatorState::Toggle(true), false, at_0530), Ok(0));
    assert_eq!(a.active_timeslot(), before);
    assert_eq!(a.time_slot_set_time_period(0, p, at_0530), Ok(()));
    assert_eq!(a.active_timeslot(), before);
    let later = period(t(7, 0), t(8, 0), day, day, WeekdaySet::all());
    a.time_slot_set_time_period(0, later, at_0530).unwrap();
    assert_eq!(a.active_timeslot(), before);
    a.time_slot_set_enabled(0, true, at_0530).unwrap();
    assert_eq!(a.active_timeslot().state, ActiveTimeSlotState::DefaultStateActive { next_id: Some(0), next_override_id: None });
}

#[test]
fn tie_goes_to_lowest_id() {
    let mut a = toggle_actuator();
    let d1 = ymd(2024, 6, 17);
    let d2 = ymd(2024, 6, 18);
    let d3 = ymd(2024, 6, 19);
    let now = DateTime { date: d3, time: t(4, 0) };
    let all = WeekdaySet::all();
    a.add_time_slot(period(t(8, 0), t(9, 0), d1, d1, all), ActuatorState::Toggle(true), true, now).unwrap();
    a.add_time_slot(period(t(8, 0), t(9, 0), d2, d2, all), ActuatorState::Toggle(true), true, now).unwrap();
    a.time_slot_add_time_override(0, period(t(11, 0), t(12, 0), d3, d3, all), now).unwrap();
    a.time_slot_add_time_override(1, period(t(11, 0), t(12, 0), d3, d3, all), now).unwrap();
    let next = find_next_timeslot(a.timeslots(), &now).unwrap();
    assert_eq!(next.id, 0);
    assert_eq!(next.override_id, Some(0));
}

#[test]
fn period_change_checks_own_overrides() {
    let mut a = toggle_actuator();
    let now = noon(ymd(2017, 1, 2));
    let all = WeekdaySet::all();
    a.add_time_slot(period(t(9, 0), t(10, 0), ymd(2017, 1, 1), ymd(2017, 1, 31), all), ActuatorState::Toggle(true), true, now).unwrap();
    let feb1 = ymd(2017, 2, 1);
    assert_eq!(a.time_slot_add_time_override(0, period(t(14, 0), t(15, 0), feb1, feb1, all), now), Ok(0));
    assert_eq!(
        a.add_time_slot(period(t(14, 0), t(15, 0), feb1, ymd(2017, 2, 28), all), ActuatorState::Toggle(true), true, now),
        Ok(1)
    );
    let patch = period(Time::empty(), Time::empty(), ymd(2017, 1, 1), ymd(2017, 2, 28), WeekdaySet::empty());
    assert_eq!(a.time_slot_set_time_period(0, patch, now), Err(Error::TimeSlotOverlap(1)));
    assert_eq!(a.timeslots()[0].1.time_period.date_range.end, ymd(2017, 1, 31));
    let patch = period(t(16, 0), t(17, 0), ymd(2017, 1, 1), ymd(2017, 2, 28), WeekdaySet::empty());
    assert_eq!(a.time_slot_set_time_period(0, patch, now), Err(Error::TimeSlotOverlap(1)));
}
