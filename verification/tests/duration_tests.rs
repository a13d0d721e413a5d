use parls::duration::{dur_from_str, timespec_before, parse_timespec, unit_of, DurationError};

#[test]
fn years_days_minutes() {
    assert_eq!(dur_from_str("1y22d4m"), Ok(365 * 24 * 3600 + 22 * 24 * 3600 + 4 * 60));
}

#[test]
fn hours_and_minutes() {
    assert_eq!(dur_from_str("2h30m"), Ok(9000));
}

#[test]
fn every_unit_once() {
    assert_eq!(dur_from_str("1s"), Ok(1));
    assert_eq!(dur_from_str("1m"), Ok(60));
    assert_eq!(dur_from_str("1h"), Ok(3600));
    assert_eq!(dur_from_str("1d"), Ok(86400));
    assert_eq!(dur_from_str("1w"), Ok(604800));
    assert_eq!(dur_from_str("1y"), Ok(31536000));
    assert_eq!(unit_of('w'), Some(604800));
    assert_eq!(unit_of('x'), None);
}

#[test]
fn empty_literal_is_zero() {
    assert_eq!(dur_from_str(""), Ok(0));
}

#[test]
fn groups_add_up_and_may_repeat() {
    assert_eq!(dur_from_str("10s5s"), Ok(15));
    assert_eq!(dur_from_str("007m"), Ok(420));
    assert_eq!(dur_from_str("0y"), Ok(0));
}

#[test]
fn unknown_letter_is_refused() {
    assert_eq!(dur_from_str("5x"), Err(DurationError::BadCharacter));
    assert_eq!(dur_from_str("5 s"), Err(DurationError::BadCharacter));
    assert_eq!(dur_from_str("1h-2m"), Err(DurationError::BadCharacter));
}

#[test]
fn unit_without_number_is_refused() {
    assert_eq!(dur_from_str("s"), Err(DurationError::MissingNumber));
    assert_eq!(dur_from_str("3hm"), Err(DurationError::MissingNumber));
}

#[test]
fn number_without_unit_is_refused() {
    assert_eq!(dur_from_str("12"), Err(DurationError::MissingUnit));
    assert_eq!(dur_from_str("1h30"), Err(DurationError::MissingUnit));
}

#[test]
fn first_wrong_character_decides() {
    assert_eq!(dur_from_str("m5x"), Err(DurationError::MissingNumber));
    assert_eq!(dur_from_str("5xm"), Err(DurationError::BadCharacter));
    assert_eq!(dur_from_str("99999999999999999999999sx"), Err(DurationError::BadCharacter));
}

#[test]
fn too_many_seconds_are_refused() {
    assert_eq!(dur_from_str("18446744073709551615s"), Ok(u64::MAX));
    assert_eq!(dur_from_str("18446744073709551616s"), Err(DurationError::TooLarge));
    assert_eq!(dur_from_str("99999999999999999999999s"), Err(DurationError::TooLarge));
    assert_eq!(dur_from_str("584942417356y"), Err(DurationError::TooLarge));
    assert_eq!(dur_from_str("18446744073709551615s1s"), Err(DurationError::TooLarge));
}

#[test]
fn instant_before_now() {
    let now: i128 = 1_700_000_000_000_000_000;
    assert_eq!(timespec_before("2h30m", now), Ok(now - 9000 * 1_000_000_000));
    assert_eq!(timespec_before("", now), Ok(now));
    assert_eq!(timespec_before("1q", now), Err(DurationError::BadCharacter));
    assert_eq!(timespec_before("1s", i128::MIN), Err(DurationError::TooLarge));
    assert_eq!(timespec_before("1s", i128::MIN + 1_000_000_000), Ok(i128::MIN));
}

#[test]
fn instant_before_the_present() {
    let a = parse_timespec("1h").unwrap();
    let b = parse_timespec("2h").unwrap();
    assert!(b < a);
    assert!(a > 1_600_000_000_000_000_000);
    assert_eq!(parse_timespec("1"), Err(DurationError::MissingUnit));
}
