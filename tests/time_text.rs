use servo_scheduler::rpc::{Error, InvalArgError};
use servo_scheduler::text::{parse_colon_specifier, parse_u32};
use servo_scheduler::time::{Date, DateRange, Time, TimeInterval, WeekdaySet, MAX_DAYS, MIN_DAYS};
use servo_scheduler::utils::{bit_range, InclusiveRange, ValidCheck};

fn t(hour: u8, minute: u8) -> Time {
    Time { hour, minute }
}

fn text(b: Vec<u8>) -> String {
    String::from_utf8(b).unwrap()
}

#[test]
fn day_starts_at_four() {
    let first = t(4, 0);
    let last = t(3, 59);
    assert_eq!(Time::min_value(), first);
    assert_eq!(Time::max_value(), last);
    for hour in 0..24u8 {
        for minute in 0..60u8 {
            let x = t(hour, minute);
            assert!(x.sub_minute(first) >= 0);
            assert!(last.sub_minute(x) >= 0);
        }
    }
    assert!(t(5, 0).sub_minute(t(23, 0)) < 0);
    assert!(t(23, 0).sub_minute(t(2, 0)) < 0);
    assert!(t(2, 0).sub_minute(t(3, 59)) < 0);
    assert_eq!(t(4, 0).shifted_hour(), 0);
    assert_eq!(t(3, 0).shifted_hour(), 23);
}

#[test]
fn interval_across_midnight() {
    let iv = TimeInterval { start: t(23, 0), end: t(3, 0) };
    assert!(iv.valid());
    assert_eq!(iv.end.sub_minute(iv.start), 240);
    assert!(iv.contains(&t(0, 30)));
    assert!(!iv.contains(&t(3, 0)));
    assert!(iv.overlaps(&TimeInterval { start: t(2, 0), end: t(3, 30) }));
    assert!(!iv.overlaps(&TimeInterval { start: t(3, 0), end: t(3, 30) }));
}

#[test]
fn inclusive_ranges() {
    let a = InclusiveRange { start: Date { days: 10 }, end: Date { days: 20 } };
    let b = InclusiveRange { start: Date { days: 20 }, end: Date { days: 30 } };
    let c = InclusiveRange { start: Date { days: 21 }, end: Date { days: 30 } };
    assert!(a.overlaps(&b));
    assert!(!a.overlaps(&c));
    assert_eq!(a.intersection(&b), Some(InclusiveRange { start: Date { days: 20 }, end: Date { days: 20 } }));
    assert_eq!(a.intersection(&c), None);
    assert!(a.contains(&Date { days: 10 }));
    assert!(!a.contains(&Date { days: 21 }));
}

#[test]
fn calendar_through_chrono() {
    let d = Date::from_ymd(2017, 5, 8).unwrap();
    assert_eq!(d.days, 736457);
    assert_eq!((d.year(), d.month(), d.day()), (2017, 5, 8));
    assert_eq!(d.weekday(), WeekdaySet::from_bits(1).unwrap());
    assert_eq!(Date::from_ymd(2024, 6, 15).unwrap().weekday(), WeekdaySet::from_bits(32).unwrap());
    assert!(Date::from_ymd(2015, 2, 29).is_none());
    assert!(Date::from_ymd(2015, 13, 1).is_none());
    assert_eq!(Date::from_ymd(1, 1, 1).unwrap(), Date::empty_date());
    assert!(!Date::empty_date().valid());
    assert!(d.valid());
    let min = Date::min_date();
    let max = Date::max_date();
    assert_eq!(min.days, MIN_DAYS);
    assert_eq!(max.days, MAX_DAYS);
    assert_eq!(min.year(), -262143);
    assert_eq!((max.year(), max.month(), max.day()), (262142, 12, 31));
    assert_eq!(d.add_days(7).weekday(), d.weekday());
    assert_eq!(Date::from_days(MAX_DAYS + 1), None);
}

#[test]
fn weekdays_of_a_range() {
    let mon = Date::from_ymd(2024, 6, 17).unwrap();
    let r = DateRange { start: mon, end: mon.add_days(2) };
    assert_eq!(r.weekday_set().bits(), 0b0000111);
    let sat = Date::from_ymd(2024, 6, 22).unwrap();
    let r = DateRange { start: sat, end: sat.add_days(2) };
    assert_eq!(r.weekday_set().bits(), 0b1100001);
    let r = DateRange { start: sat, end: sat.add_days(6) };
    assert!(r.weekday_set().is_all());
    let r = DateRange { start: sat, end: sat };
    assert_eq!(r.weekday_set(), sat.weekday());
}

#[test]
fn weekday_sets() {
    let a = WeekdaySet::from_bits(0b0000011).unwrap();
    let b = WeekdaySet::from_bits(0b0000110).unwrap();
    assert_eq!(a.union(&b).bits(), 0b0000111);
    assert_eq!(a.intersection(&b).bits(), 0b0000010);
    assert!(WeekdaySet::empty().is_empty());
    assert!(!a.is_empty());
    assert!(WeekdaySet::all().is_all());
    assert!(a.has(0) && a.has(1) && !a.has(2) && !a.has(7));
    assert!(WeekdaySet::from_bits(128).is_none());
    assert_eq!(bit_range(2, 4), 0b0011100);
    assert_eq!(bit_range(0, 6), 127);
}

#[test]
fn time_text_round_trip() {
    assert_eq!(text(t(7, 5).format()), "07:05");
    assert_eq!(Time::parse("07:05"), Some(t(7, 5)));
    assert_eq!(Time::parse("7:5"), Some(t(7, 5)));
    assert_eq!(Time::parse("7:"), None);
    assert_eq!(Time::parse("300:00"), None);
    for hour in 0..24u8 {
        for minute in 0..60u8 {
            let x = t(hour, minute);
            assert_eq!(Time::parse(&text(x.format())), Some(x));
        }
    }
}

#[test]
fn interval_text_round_trip() {
    let iv = TimeInterval { start: t(23, 0), end: t(3, 0) };
    assert_eq!(text(iv.format()), "23:00-03:00");
    assert_eq!(TimeInterval::parse("23:00-03:00"), Some(iv));
    assert_eq!(TimeInterval::parse("23:00-03:00-04:00"), None);
    assert_eq!(TimeInterval::parse("23:00"), None);
    assert_eq!(TimeInterval::parse("a:00-03:00"), None);
}

#[test]
fn weekday_text_round_trip() {
    let w = WeekdaySet::from_bits(0b0100001).unwrap();
    assert_eq!(text(w.format()), "M----S-");
    assert_eq!(WeekdaySet::parse("M----S-"), Some(w));
    assert_eq!(text(WeekdaySet::all().format()), "MTWTFSS");
    assert_eq!(WeekdaySet::parse("-------"), Some(WeekdaySet::empty()));
    assert_eq!(WeekdaySet::parse("MTWTFS"), None);
    assert_eq!(WeekdaySet::parse("TTWTFSS"), None);
    for bits in 0..128u8 {
        let w = WeekdaySet::from_bits(bits).unwrap();
        assert_eq!(WeekdaySet::parse(&text(w.format())), Some(w));
    }
}

#[test]
fn date_text_round_trip() {
    let d = Date::from_ymd(2017, 5, 8).unwrap();
    assert_eq!(text(d.format()), "08/05/2017");
    assert_eq!(Date::parse("08/05/2017", 2000), Some(d));
    assert_eq!(Date::parse("8/5", 2017), Some(d));
    assert_eq!(Date::parse("31/02/2017", 2000), None);
    assert_eq!(Date::parse("08-05-2017", 2000), None);
    assert_eq!(Date::parse("1/2/3/4", 2000), None);
    assert_eq!(text(Date::min_date().format()), "-");
    assert_eq!(text(Date::max_date().format()), "-");
    for days in [1, 365, 366, 719163, 736457, 739052, 800000] {
        let d = Date { days };
        assert_eq!(Date::parse(&text(d.format()), 1999), Some(d));
    }
}

#[test]
fn colon_specifiers() {
    assert_eq!(parse_colon_specifier("3:14", 2), Some(vec![3, 14]));
    assert_eq!(parse_colon_specifier("3:14:1", 3), Some(vec![3, 14, 1]));
    assert_eq!(parse_colon_specifier("3:14", 3), None);
    assert_eq!(parse_colon_specifier("3:x", 2), None);
    assert_eq!(parse_colon_specifier("+3:4", 2), Some(vec![3, 4]));
    assert_eq!(parse_colon_specifier("3::4", 3), None);
    assert_eq!(parse_u32(b"4294967295"), Some(u32::MAX));
    assert_eq!(parse_u32(b"4294967296"), None);
    assert_eq!(parse_u32(b""), None);
}

#[test]
fn error_texts() {
    assert_eq!(InvalArgError::ActuatorId.description(), "actuator ID");
    assert_eq!(InvalArgError::TimeOverrideId.description(), "time override ID");
}

#[test]
fn error_from_argument() {
    assert_eq!(Error::from(InvalArgError::TimePeriod), Error::InvalidArgument(InvalArgError::TimePeriod));
}

#[test]
fn dates_before_year_zero_read_back() {
    let d = Date::from_ymd(-5, 3, 1).unwrap();
    assert_eq!(text(d.format()), "01/03/-5");
    assert_eq!(Date::parse("01/03/-5", 2000), Some(d));
    assert_eq!(Date::parse("01/03/-", 2000), None);
    let first = Date { days: MIN_DAYS + 1 };
    assert_eq!(Date::parse(&text(first.format()), 2000), Some(first));
}

#[test]
fn weekday_masks_read_and_write_back() {
    for bits in 0..128u8 {
        let mask = text(WeekdaySet::from_bits(bits).unwrap().format());
        let w = WeekdaySet::parse(&mask).unwrap();
        assert_eq!(text(w.format()), mask);
    }
}
