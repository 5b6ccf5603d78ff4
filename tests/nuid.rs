use nuid::alphabet::{alphabet, digit, symbol_for_byte, BASE};
use nuid::generator::{MAX_INC, MAX_SEQ, MIN_INC, PRE_LEN, SEQ_LEN, TOTAL_LEN};
use nuid::NUID;
use std::collections::HashSet;

fn decode_base62(s: &str) -> i64 {
    let digits = alphabet();
    let mut v: i64 = 0;
    for c in s.bytes() {
        let d = digits.iter().position(|x| *x == c).unwrap() as i64;
        v = v * 62 + d;
    }
    v
}

fn is_symbol(b: u8) -> bool {
    b.is_ascii_digit() || b.is_ascii_uppercase() || b.is_ascii_lowercase()
}

#[test]
fn test_digits() {
    assert_eq!(alphabet().len(), BASE);
}

#[test]
fn test_nuid_rollover() {
    let mut sut = NUID::new();
    sut.set_sequence(MAX_SEQ);
    let old_pre = sut.prefix();

    sut.next();

    assert_ne!(sut.prefix(), old_pre);
}

#[test]
fn test_guid_len() {
    let mut sut = NUID::new();

    let id = sut.next();

    assert_eq!(id.len(), TOTAL_LEN);
}

#[test]
fn test_proper_prefix() {
    let mut min: u8 = 255;
    let mut max: u8 = 0;
    for d in alphabet() {
        if d < min {
            min = d;
        }
        if d > max {
            max = d;
        }
    }
    let total = 100000;
    for _ in 0..total {
        let sut = NUID::new();
        for d in sut.prefix() {
            assert!(d >= min);
            assert!(d <= max);
        }
    }
}

#[test]
fn alphabet_is_digits_then_upper_then_lower() {
    let expected: Vec<u8> = b"0123456789ABCDEFGHIJKLMNOPQRSTUVWXYZabcdefghijklmnopqrstuvwxyz".to_vec();
    assert_eq!(alphabet(), expected);
}

#[test]
fn alphabet_has_distinct_symbols() {
    let set: HashSet<u8> = alphabet().into_iter().collect();
    assert_eq!(set.len(), 62);
}

#[test]
fn digit_values() {
    assert_eq!(digit(0), b'0');
    assert_eq!(digit(9), b'9');
    assert_eq!(digit(10), b'A');
    assert_eq!(digit(35), b'Z');
    assert_eq!(digit(36), b'a');
    assert_eq!(digit(61), b'z');
}

#[test]
fn byte_selects_symbol_modulo_62() {
    assert_eq!(symbol_for_byte(0), b'0');
    assert_eq!(symbol_for_byte(61), b'z');
    assert_eq!(symbol_for_byte(62), b'0');
    assert_eq!(symbol_for_byte(200), b'E');
    assert_eq!(symbol_for_byte(255), b'7');
}

#[test]
fn constants_have_documented_values() {
    assert_eq!(PRE_LEN, 12);
    assert_eq!(SEQ_LEN, 10);
    assert_eq!(TOTAL_LEN, PRE_LEN + SEQ_LEN);
    assert_eq!(MAX_SEQ, 62i64.pow(10));
    assert_eq!(MIN_INC, 33);
    assert_eq!(MAX_INC, 333);
}

#[test]
fn drawn_state_is_exact() {
    let raw: [u8; 12] = [0, 1, 10, 35, 36, 61, 62, 100, 123, 124, 200, 255];
    let sut = NUID::with_draws(raw, 5, 1);
    assert_eq!(&sut.prefix(), b"01AZaz0cz0E7");
    assert_eq!(sut.sequence(), 5);
    assert_eq!(sut.increment(), MIN_INC + 1);
}

#[test]
fn next_renders_prefix_and_counter() {
    let raw: [u8; 12] = [0; 12];
    let mut sut = NUID::with_draws(raw, 1, 1);
    let id = sut.next();
    assert_eq!(sut.sequence(), 35);
    assert_eq!(id, "000000000000000000000Z");
}

#[test]
fn counter_carries_into_next_digit() {
    let raw: [u8; 12] = [10; 12];
    let mut sut = NUID::with_draws(raw, 1, 1);
    sut.set_sequence(28);
    let id = sut.next();
    assert_eq!(id, "AAAAAAAAAAAA0000000010");
}

#[test]
fn largest_counter_renders_all_z() {
    let raw: [u8; 12] = [61; 12];
    let mut sut = NUID::with_draws(raw, 1, 1);
    sut.set_sequence(MAX_SEQ - 2);
    sut.set_increment(1);
    let id = sut.next();
    assert_eq!(sut.sequence(), MAX_SEQ - 1);
    assert_eq!(id, "zzzzzzzzzzzzzzzzzzzzzz");
}

#[test]
fn identifiers_have_length_and_alphabet() {
    let mut sut = NUID::new();
    for _ in 0..10000 {
        let id = sut.next();
        assert_eq!(id.len(), TOTAL_LEN);
        assert!(id.bytes().all(is_symbol));
        assert!(sut.prefix().iter().all(|b| is_symbol(*b)));
    }
}

#[test]
fn counter_advances_by_step_within_prefix() {
    let raw: [u8; 12] = [7; 12];
    let mut sut = NUID::with_draws(raw, 1000, 100);
    let inc = sut.increment();
    let mut prev = sut.sequence();
    for _ in 0..1000 {
        sut.next();
        assert_eq!(sut.sequence(), prev + inc);
        assert_eq!(sut.prefix(), raw.map(symbol_for_byte));
        prev = sut.sequence();
    }
}

#[test]
fn new_draws_counter_and_step_in_range() {
    for _ in 0..1000 {
        let sut = NUID::new();
        assert!(sut.sequence() >= 1 && sut.sequence() < MAX_SEQ);
        assert!(sut.increment() > MIN_INC && sut.increment() < MAX_INC);
    }
}

#[test]
fn forced_rollover_redraws_state() {
    let mut sut = NUID::new();
    sut.set_sequence(MAX_SEQ - 1);
    sut.set_increment(1);
    let old_pre = sut.prefix();
    let id = sut.next();
    assert_ne!(id.as_bytes()[..PRE_LEN], old_pre[..]);
    assert_eq!(id.as_bytes()[..PRE_LEN], sut.prefix()[..]);
    assert_eq!(decode_base62(&id[PRE_LEN..]), sut.sequence());
    assert!(sut.sequence() >= 1 && sut.sequence() < MAX_SEQ);
    assert!(sut.increment() > MIN_INC && sut.increment() < MAX_INC);
}

#[test]
fn rollover_from_far_beyond_bound() {
    let mut sut = NUID::new();
    sut.set_sequence(i64::MAX - MAX_INC);
    let id = sut.next();
    assert_eq!(id.len(), TOTAL_LEN);
    assert!(sut.sequence() >= 1 && sut.sequence() < MAX_SEQ);
}

#[test]
fn seeded_generator_changes_only_counter() {
    fastrand::seed(7);
    let mut sut = NUID::new();
    let before = sut.sequence();
    let a = sut.next();
    let b = sut.next();
    if sut.sequence() > before {
        assert_eq!(a[..PRE_LEN], b[..PRE_LEN]);
        assert_ne!(a[PRE_LEN..], b[PRE_LEN..]);
    }
    fastrand::seed(7);
    let mut again = NUID::new();
    assert_eq!(again.next(), a);
    assert_eq!(again.next(), b);
}

#[test]
fn many_identifiers_are_unique() {
    let mut sut = NUID::new();
    let mut seen: HashSet<String> = HashSet::new();
    for _ in 0..200000 {
        assert!(seen.insert(sut.next()));
    }
}

#[test]
fn describe_shows_counter_and_step() {
    let raw: [u8; 12] = [0; 12];
    let sut = NUID::with_draws(raw, 42, 5);
    assert_eq!(
        sut.describe(),
        "[48, 48, 48, 48, 48, 48, 48, 48, 48, 48, 48, 48] 42 38"
    );
}
