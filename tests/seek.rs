use davis::seek::{Arg, ParseSeekError, SeekDirection};

#[test]
fn test_hms() {
    assert_eq!(
        Arg::from_str("+1:2:3").unwrap(),
        Arg {
            direction: SeekDirection::Forward,
            seconds: 1 * 60 * 60 + 2 * 60 + 3
        }
    );

    assert_eq!(
        Arg::from_str("0:2:3").unwrap(),
        Arg {
            direction: SeekDirection::Absolute,
            seconds: 2 * 60 + 3
        }
    );
}

#[test]
fn test_ms() {
    assert_eq!(
        Arg::from_str("+2:3").unwrap(),
        Arg {
            direction: SeekDirection::Forward,
            seconds: 2 * 60 + 3
        }
    );
}

#[test]
fn test_s() {
    assert_eq!(
        Arg::from_str("3").unwrap(),
        Arg {
            direction: SeekDirection::Absolute,
            seconds: 3
        }
    );
}

#[test]
fn test_leading_zeroes() {
    assert_eq!(
        Arg::from_str("01:01:01").unwrap(),
        Arg {
            direction: SeekDirection::Absolute,
            seconds: 60 * 60 * 1 + 60 * 1 + 1
        }
    );
}

#[test]
fn seek_back() {
    assert_eq!(
        Arg::from_str("-10").unwrap(),
        Arg {
            direction: SeekDirection::Back,
            seconds: 10
        }
    );
}

#[test]
fn seek_empty_is_refused() {
    assert_eq!(Arg::from_str(""), Err(ParseSeekError::EmptyString));
    assert_eq!(ParseSeekError::EmptyString.message(), "Empty string.");
}

#[test]
fn seek_bad_fields_are_refused() {
    assert_eq!(Arg::from_str("1:x"), Err(ParseSeekError::FieldNotInteger));
    assert_eq!(Arg::from_str("+"), Err(ParseSeekError::FieldNotInteger));
    assert_eq!(Arg::from_str("1::2"), Err(ParseSeekError::FieldNotInteger));
    assert_eq!(Arg::from_str("4294967296"), Err(ParseSeekError::FieldNotInteger));
}

#[test]
fn seek_overflow_is_refused() {
    assert_eq!(Arg::from_str("4294967295:0"), Err(ParseSeekError::OutOfRange));
    assert_eq!(
        Arg::from_str("4294967295").unwrap(),
        Arg {
            direction: SeekDirection::Absolute,
            seconds: 4294967295
        }
    );
}
