use bfrs::config::{tape_capacity, ConfigError, DEFAULT_CAPACITY};

#[test]
fn default_capacity_is_thirty_thousand() {
    assert_eq!(DEFAULT_CAPACITY, 30000);
    assert_eq!(tape_capacity(None), Ok(30000));
}

#[test]
fn decimal_number_is_taken_as_the_capacity() {
    assert_eq!(tape_capacity(Some("1")), Ok(1));
    assert_eq!(tape_capacity(Some("9")), Ok(9));
    assert_eq!(tape_capacity(Some("10")), Ok(10));
    assert_eq!(tape_capacity(Some("30000")), Ok(30000));
    assert_eq!(tape_capacity(Some("1234567")), Ok(1234567));
}

#[test]
fn leading_zeros_do_not_change_the_number() {
    assert_eq!(tape_capacity(Some("007")), Ok(7));
    assert_eq!(tape_capacity(Some("0000000000000000000000000000042")), Ok(42));
}

#[test]
fn largest_index_is_accepted_and_one_more_is_refused() {
    let largest = format!("{}", usize::MAX);
    assert_eq!(tape_capacity(Some(&largest)), Ok(usize::MAX));
    let mut digits: Vec<u8> = largest.into_bytes();
    let mut at = digits.len();
    loop {
        at -= 1;
        if digits[at] == b'9' {
            digits[at] = b'0';
        } else {
            digits[at] += 1;
            break;
        }
    }
    let one_more = String::from_utf8(digits).unwrap();
    assert_eq!(
        tape_capacity(Some(&one_more)),
        Err(ConfigError::InvalidCapacity)
    );
}

#[test]
fn zero_is_refused() {
    assert_eq!(tape_capacity(Some("0")), Err(ConfigError::InvalidCapacity));
    assert_eq!(tape_capacity(Some("000")), Err(ConfigError::InvalidCapacity));
}

#[test]
fn empty_text_is_refused() {
    assert_eq!(tape_capacity(Some("")), Err(ConfigError::InvalidCapacity));
}

#[test]
fn text_that_is_not_a_number_is_refused() {
    for text in ["-5", "+5", "12a", "a12", " 5", "5 ", "1.5", "0x10", "ten", "１２"] {
        assert_eq!(
            tape_capacity(Some(text)),
            Err(ConfigError::InvalidCapacity),
            "text {:?}",
            text
        );
    }
}

#[test]
fn number_that_is_too_large_is_refused() {
    assert_eq!(
        tape_capacity(Some("99999999999999999999999999999999999999")),
        Err(ConfigError::InvalidCapacity)
    );
    assert_eq!(
        tape_capacity(Some("99999999999999999999999999999999999999x")),
        Err(ConfigError::InvalidCapacity)
    );
}
