use servo_scheduler::actuator::{ActuatorInfo, ActuatorState, ActuatorType};
use servo_scheduler::rpc::{Error, InvalArgError};
use servo_scheduler::server::Server;
use servo_scheduler::time::{Date, DateRange, DateTime, Time, TimeInterval, WeekdaySet};
use servo_scheduler::time_slot::TimePeriod;

fn info(name: &str, actuator_type: ActuatorType) -> ActuatorInfo {
    ActuatorInfo { name: name.to_string(), actuator_type }
}

fn now() -> DateTime {
    DateTime { date: Date::from_ymd(2024, 6, 17).unwrap(), time: Time { hour: 12, minute: 0 } }
}

#[test]
fn server_routes_by_index() {
    let mut s = Server::new(vec![
        (info("lamp", ActuatorType::Toggle), ActuatorState::Toggle(false)),
        (info("valve", ActuatorType::FloatValue { min: 0, max: 10 }), ActuatorState::FloatValue(5)),
    ])
    .unwrap();
    let list = s.list_actuators();
    assert_eq!(list.len(), 2);
    assert_eq!(list[1].name, "valve");
    assert_eq!(s.get_default_state(1), Ok(ActuatorState::FloatValue(5)));
    assert_eq!(s.get_default_state(2), Err(Error::InvalidArgument(InvalArgError::ActuatorId)));
    let p = TimePeriod {
        time_interval: TimeInterval { start: Time { hour: 8, minute: 0 }, end: Time { hour: 9, minute: 0 } },
        date_range: DateRange { start: Date::min_date(), end: Date::max_date() },
        days: WeekdaySet::all(),
    };
    assert_eq!(s.add_time_slot(0, p, ActuatorState::Toggle(true), true, now()), Ok(0));
    assert_eq!(s.add_time_slot(2, p, ActuatorState::Toggle(true), true, now()), Err(Error::InvalidArgument(InvalArgError::ActuatorId)));
    assert_eq!(s.list_timeslots(0).unwrap().len(), 1);
    assert_eq!(s.list_timeslots(1).unwrap().len(), 0);
    assert_eq!(s.time_slot_set_enabled(0, 0, false, now()), Ok(()));
    assert!(!s.list_timeslots(0).unwrap()[0].1.enabled);
    assert_eq!(s.set_default_state(1, ActuatorState::FloatValue(11)), Err(Error::InvalidArgument(InvalArgError::ActuatorState)));
    assert_eq!(s.set_default_state(1, ActuatorState::FloatValue(10)), Ok(()));
    assert_eq!(s.set_state(0, ActuatorState::Toggle(true)), Ok(()));
    assert_eq!(s.remove_time_slot(0, 0, now()), Ok(()));
    assert_eq!(s.remove_time_slot(0, 0, now()), Err(Error::InvalidArgument(InvalArgError::TimeSlotId)));
    assert!(s.advance(0, now()).is_some());
    assert!(s.advance(5, now()).is_none());
}

#[test]
fn server_refuses_bad_configuration() {
    let r = Server::new(vec![
        (info("lamp", ActuatorType::Toggle), ActuatorState::Toggle(false)),
        (info("valve", ActuatorType::FloatValue { min: 10, max: 0 }), ActuatorState::FloatValue(5)),
    ]);
    assert_eq!(r.err(), Some(1));
    let r = Server::new(vec![(info("lamp", ActuatorType::Toggle), ActuatorState::FloatValue(1))]);
    assert_eq!(r.err(), Some(0));
}
