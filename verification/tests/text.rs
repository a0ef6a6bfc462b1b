use rs_blobstore::config::{
    env_count, env_or, BIND_ADDR, MAX_BODY_BYTES, STORAGE_ROOT, WRITE_QUEUE_CAPACITY, WRITE_WORKERS,
};
use rs_blobstore::text::{decimal, hex, parse_count, CountError};

#[test]
fn hex_is_two_lower_case_digits_a_byte() {
    assert_eq!(hex(&[]), "");
    assert_eq!(hex(&[0x00, 0x0f, 0xa5, 0xff]), "000fa5ff");
}

#[test]
fn decimal_has_no_leading_zeros() {
    assert_eq!(decimal(0), "0");
    assert_eq!(decimal(1_700_000_000_123_456_789), "1700000000123456789");
    assert_eq!(decimal(u128::MAX), format!("{}", u128::MAX));
}

#[test]
fn count_reads_back_what_decimal_writes() {
    for n in [0, 7, 10, 1024, 1_073_741_824, usize::MAX] {
        assert_eq!(parse_count(&decimal(n as u128)), Ok(n));
    }
}

#[test]
fn counts_are_read_as_std_reads_them() {
    let max = format!("{}", usize::MAX);
    let over = format!("{}", usize::MAX as u128 + 1);
    let over_then_letter = format!("{}x", over);
    let texts = [
        "", "0", "007", "+5", "+", "-", "-0", "++1", " 1", "1 ", "1_0", "12a", "a", "\u{661}",
        max.as_str(), over.as_str(), over_then_letter.as_str(),
        "00000000000000000000000000000000000001",
    ];
    for s in texts {
        match s.parse::<usize>() {
            Ok(n) => assert_eq!(parse_count(s), Ok(n)),
            Err(e) => assert_eq!(parse_count(s).unwrap_err().message(), format!("{}", e)),
        }
    }
}

#[test]
fn each_count_error_has_its_input() {
    assert_eq!(parse_count(""), Err(CountError::Empty));
    assert_eq!(parse_count("4x"), Err(CountError::InvalidDigit));
    assert_eq!(
        parse_count("340282366920938463463374607431768211456"),
        Err(CountError::TooLarge)
    );
}

#[test]
fn settings_have_their_defaults() {
    assert_eq!(env_or(None, STORAGE_ROOT), "/data");
    assert_eq!(env_or(None, BIND_ADDR), "0.0.0.0:8080");
    assert_eq!(env_count(None, WRITE_QUEUE_CAPACITY), Ok(1024));
    assert_eq!(env_count(None, WRITE_WORKERS), Ok(4));
    assert_eq!(env_count(None, MAX_BODY_BYTES), Ok(1 << 30));
}

#[test]
fn settings_of_the_environment_win() {
    assert_eq!(env_or(Some(String::from("./data")), STORAGE_ROOT), "./data");
    assert_eq!(env_or(Some(String::new()), STORAGE_ROOT), "");
    assert_eq!(env_count(Some(String::from("16")), WRITE_WORKERS), Ok(16));
    assert_eq!(
        env_count(Some(String::from("many")), WRITE_WORKERS),
        Err(CountError::InvalidDigit)
    );
}
