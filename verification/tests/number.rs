use calabi_yau::number::{is_float_literal, parse_u32};

fn std_u32(text: &str) -> Option<u32> {
    text.parse::<u32>().ok()
}

fn std_float(text: &str) -> bool {
    text.parse::<f64>().is_ok()
}

fn words(alphabet: &[&str], longest: usize) -> Vec<String> {
    let mut all = vec![String::new()];
    let mut last = vec![String::new()];
    for _ in 0..longest {
        let mut longer = Vec::new();
        for word in &last {
            for piece in alphabet {
                longer.push(format!("{}{}", word, piece));
            }
        }
        all.extend(longer.iter().cloned());
        last = longer;
    }
    all
}

#[test]
fn integers_are_read() {
    assert_eq!(parse_u32(b"0"), Some(0));
    assert_eq!(parse_u32(b"2"), Some(2));
    assert_eq!(parse_u32(b"007"), Some(7));
    assert_eq!(parse_u32(b"+5"), Some(5));
    assert_eq!(parse_u32(b"1234567890"), Some(1234567890));
    assert_eq!(parse_u32(b"4294967295"), Some(4294967295));
    assert_eq!(parse_u32(b"0000000004294967295"), Some(4294967295));
}

#[test]
fn what_is_no_integer_is_not_read() {
    assert_eq!(parse_u32(b""), None);
    assert_eq!(parse_u32(b"+"), None);
    assert_eq!(parse_u32(b"-"), None);
    assert_eq!(parse_u32(b"-0"), None);
    assert_eq!(parse_u32(b"++1"), None);
    assert_eq!(parse_u32(b"1+"), None);
    assert_eq!(parse_u32(b"1.0"), None);
    assert_eq!(parse_u32(b"1e3"), None);
    assert_eq!(parse_u32(b" 1"), None);
    assert_eq!(parse_u32(b"1 "), None);
    assert_eq!(parse_u32(b"0x10"), None);
    assert_eq!(parse_u32(b"1_000"), None);
    assert_eq!(parse_u32("١".as_bytes()), None);
}

#[test]
fn integers_beyond_32_bits_are_not_read() {
    assert_eq!(parse_u32(b"4294967296"), None);
    assert_eq!(parse_u32(b"4294967300"), None);
    assert_eq!(parse_u32(b"42949672950"), None);
    assert_eq!(parse_u32(b"99999999999999999999999999999999999999999"), None);
    assert_eq!(parse_u32(b"18446744073709551616"), None);
    assert_eq!(parse_u32(b"99999999999x"), None);
}

#[test]
fn integers_agree_with_the_platform() {
    for word in words(&["+", "-", "0", "1", "9", "a", " ", "."], 5) {
        assert_eq!(parse_u32(word.as_bytes()), std_u32(&word), "{:?}", word);
    }
    for value in [0u64, 1, 9, 10, 4294967294, 4294967295, 4294967296, 4294967297, 42949672949] {
        let word = value.to_string();
        assert_eq!(parse_u32(word.as_bytes()), std_u32(&word), "{:?}", word);
        let signed = format!("+{}", word);
        assert_eq!(parse_u32(signed.as_bytes()), std_u32(&signed), "{:?}", signed);
    }
}

#[test]
fn literals_are_recognised() {
    for word in [
        "0", "7", "007", "3.14", "-3.14", "+3.14", "2.5E10", "2.5e10", "2.5E-10", "2.5e+10", "5.",
        ".5", "+.5", "-5.", "1e5", "1.e5", ".1e5", "inf", "-inf", "+infinity", "NaN", "nan",
        "INF", "Infinity", "iNfInItY", "-NAN", "1e999999999999999999999999",
        "0.000000000000000000000000000000000000000000000000000001",
        "123456789012345678901234567890123456789012345678901234567890",
    ] {
        assert!(is_float_literal(word.as_bytes()), "{:?}", word);
        assert!(std_float(word), "{:?}", word);
    }
}

#[test]
fn what_is_no_literal_is_not_recognised() {
    for word in [
        "", "+", "-", ".", "+.", "-.", "e", "e5", ".e5", "1e", "1e+", "1e-", "1e+-5", "1..2",
        "1.2.3", "--1", "+-1", "1-", " 1", "1 ", "1,5", "0x10", "1_0", "1f", "1.0f64", "in",
        "infinit", "infinityy", "na", "nann", "i", "inf ", "+ inf", "1e5.5", "1e5e5", "١",
        "1\u{a0}", "abc",
    ] {
        assert!(!is_float_literal(word.as_bytes()), "{:?}", word);
        assert!(!std_float(word), "{:?}", word);
    }
}

#[test]
fn literals_agree_with_the_platform() {
    for word in words(&["+", "-", ".", "e", "E", "0", "9", "i", "n", "f", "a", " "], 5) {
        assert_eq!(is_float_literal(word.as_bytes()), std_float(&word), "{:?}", word);
    }
}

#[test]
fn names_agree_with_the_platform() {
    for word in words(&["i", "I", "n", "N", "f", "a", "A", "-"], 4) {
        assert_eq!(is_float_literal(word.as_bytes()), std_float(&word), "{:?}", word);
    }
    for name in ["infinity", "INFINITY", "Infinity", "infinitY", "infinite", "1nfinity", "nfinity"] {
        for sign in ["", "+", "-", "++"] {
            let word = format!("{}{}", sign, name);
            assert_eq!(is_float_literal(word.as_bytes()), std_float(&word), "{:?}", word);
        }
    }
}

#[test]
fn one_byte_literals_agree_with_the_platform() {
    for byte in 0u8..128 {
        for around in ["", "1", "1e", "."] {
            let mut word = String::from(around);
            word.push(byte as char);
            assert_eq!(is_float_literal(word.as_bytes()), std_float(&word), "{:?}", word);
            assert_eq!(parse_u32(word.as_bytes()), std_u32(&word), "{:?}", word);
            let mut front = String::new();
            front.push(byte as char);
            front.push_str(around);
            assert_eq!(is_float_literal(front.as_bytes()), std_float(&front), "{:?}", front);
            assert_eq!(parse_u32(front.as_bytes()), std_u32(&front), "{:?}", front);
        }
    }
}
