use gnrt::epoch::Epoch::{Major, Minor};
use gnrt::epoch::EpochParseError::{BadFormat, BadVersion, InvalidInt};
use gnrt::epoch::{Epoch, EpochParseError};
use std::str::FromStr;

#[test]
fn epoch_from_str() {
    assert_eq!(Epoch::from_str("v1"), Ok(Major(1)));
    assert_eq!(Epoch::from_str("v2"), Ok(Major(2)));
    assert_eq!(Epoch::from_str("v0_3"), Ok(Minor(3)));
    assert_eq!(Epoch::from_str("0_1"), Err(BadFormat));
    assert_eq!(Epoch::from_str("v1_9"), Err(BadVersion));
    assert_eq!(Epoch::from_str("v0_0"), Err(BadVersion));
    assert_eq!(Epoch::from_str("v0_1_2"), Err(BadFormat));
    assert_eq!(Epoch::from_str("v1_0"), Err(BadVersion));
    assert!(matches!(Epoch::from_str("v1_0foo"), Err(InvalidInt(_))));
    assert!(matches!(Epoch::from_str("vx_1"), Err(InvalidInt(_))));
}

#[test]
fn epoch_to_string() {
    assert_eq!(Major(1).to_string(), "v1");
    assert_eq!(Major(2).to_string(), "v2");
    assert_eq!(Minor(3).to_string(), "v0_3");
}

#[test]
fn invalid_int_carries_the_segment() {
    assert_eq!(Epoch::parse("v1_0foo"), Err(InvalidInt("0foo".to_string())));
    assert_eq!(Epoch::parse("vx_1"), Err(InvalidInt("x".to_string())));
    assert_eq!(Epoch::parse("v0_y"), Err(InvalidInt("y".to_string())));
    assert_eq!(Epoch::parse("v+1"), Err(InvalidInt("+1".to_string())));
}

#[test]
fn too_large_numbers_are_invalid() {
    assert_eq!(Epoch::parse("v18446744073709551615"), Ok(Major(u64::MAX)));
    assert_eq!(
        Epoch::parse("v18446744073709551616"),
        Err(InvalidInt("18446744073709551616".to_string()))
    );
    assert_eq!(Epoch::parse("v0_18446744073709551615"), Ok(Minor(u64::MAX)));
    assert_eq!(
        Epoch::parse("v0_99999999999999999999"),
        Err(InvalidInt("99999999999999999999".to_string()))
    );
}

#[test]
fn structural_errors() {
    assert_eq!(Epoch::parse(""), Err(BadFormat));
    assert_eq!(Epoch::parse("v"), Err(BadFormat));
    assert_eq!(Epoch::parse("v_1"), Err(BadFormat));
    assert_eq!(Epoch::parse("v0_"), Err(BadFormat));
    assert_eq!(Epoch::parse("1"), Err(BadFormat));
    assert_eq!(Epoch::parse("V1"), Err(BadFormat));
    assert_eq!(Epoch::parse("vx_1_2"), Err(BadFormat));
}

#[test]
fn version_errors() {
    assert_eq!(Epoch::parse("v0"), Err(BadVersion));
    assert_eq!(Epoch::parse("v00"), Err(BadVersion));
    assert_eq!(Epoch::parse("v0_0"), Err(BadVersion));
    assert_eq!(Epoch::parse("v2_1"), Err(BadVersion));
}

#[test]
fn leading_zeros_are_read_as_numbers() {
    assert_eq!(Epoch::parse("v007"), Ok(Major(7)));
    assert_eq!(Epoch::parse("v00_05"), Ok(Minor(5)));
}

#[test]
fn round_trip_on_samples() {
    let samples: Vec<Epoch> = vec![
        Major(1),
        Major(9),
        Major(10),
        Major(123456789),
        Major(u64::MAX),
        Minor(1),
        Minor(10),
        Minor(987),
        Minor(u64::MAX),
    ];
    for e in samples {
        assert_eq!(Epoch::parse(&e.to_string()), Ok(e));
    }
    assert_eq!(Major(10).to_string(), "v10");
    assert_eq!(Minor(987).to_string(), "v0_987");
    assert_eq!(Major(u64::MAX).to_string(), "v18446744073709551615");
}

#[test]
fn epoch_from_version_numbers() {
    assert_eq!(Epoch::from_version(1, 2), Some(Major(1)));
    assert_eq!(Epoch::from_version(3, 0), Some(Major(3)));
    assert_eq!(Epoch::from_version(0, 4), Some(Minor(4)));
    assert_eq!(Epoch::from_version(0, 0), None);
}

#[test]
fn parse_errors_compare() {
    let e: EpochParseError = BadFormat;
    assert_ne!(e, BadVersion);
}

#[test]
fn non_ascii_segments_are_invalid_ints() {
    assert_eq!(Epoch::parse("vé"), Err(InvalidInt("é".to_string())));
    assert_eq!(Epoch::parse("v0_٣"), Err(InvalidInt("٣".to_string())));
    assert_eq!(Epoch::parse("ü1"), Err(BadFormat));
}
