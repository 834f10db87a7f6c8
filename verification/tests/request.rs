use calabi_yau::{parse_request, RequestError};

fn reason(input: &[u8]) -> RequestError {
    match parse_request(input) {
        Ok(request) => panic!("accepted: {:?}", request),
        Err(reason) => reason,
    }
}

#[test]
fn well_formed_request_is_read() {
    let request = parse_request(b"2,0.5,4").unwrap();
    assert_eq!(request.n, 2);
    assert_eq!(request.alpha, b"0.5".to_vec());
    assert_eq!(request.subdivisions, 4);
}

#[test]
fn two_fields_are_too_few() {
    assert_eq!(reason(b"2,0.5"), RequestError::FieldCount);
}

#[test]
fn four_fields_are_too_many() {
    assert_eq!(reason(b"2,0.5,4,1"), RequestError::FieldCount);
    assert_eq!(reason(b"2,0.5,4,"), RequestError::FieldCount);
}

#[test]
fn empty_request_has_one_field() {
    assert_eq!(reason(b""), RequestError::FieldCount);
    assert_eq!(reason(b"   "), RequestError::FieldCount);
}

#[test]
fn letters_are_no_order() {
    assert_eq!(reason(b"x,0.5,4"), RequestError::InvalidOrder);
}

#[test]
fn negative_order_is_turned_down() {
    assert_eq!(reason(b"-1,0.5,4"), RequestError::InvalidOrder);
}

#[test]
fn order_beyond_32_bits_is_turned_down() {
    assert_eq!(reason(b"4294967296,0.5,4"), RequestError::InvalidOrder);
    assert_eq!(parse_request(b"4294967295,0.5,4").unwrap().n, u32::MAX);
}

#[test]
fn letters_are_no_angle() {
    assert_eq!(reason(b"2,abc,4"), RequestError::InvalidAlpha);
    assert_eq!(reason(b"2,,4"), RequestError::InvalidAlpha);
}

#[test]
fn letters_are_no_subdivisions() {
    assert_eq!(reason(b"2,0.5,four"), RequestError::InvalidSubdivisions);
    assert_eq!(reason(b"2,0.5,4.0"), RequestError::InvalidSubdivisions);
}

#[test]
fn bytes_that_are_no_text_are_turned_down() {
    assert_eq!(reason(&[0xff, 0xfe, 0x2c]), RequestError::InvalidEncoding);
    assert_eq!(reason(&[0x32, 0x2c, 0x80]), RequestError::InvalidEncoding);
}

#[test]
fn overlong_and_surrogate_encodings_are_turned_down() {
    assert_eq!(reason(&[0xc0, 0x80]), RequestError::InvalidEncoding);
    assert_eq!(reason(&[0xed, 0xa0, 0x80]), RequestError::InvalidEncoding);
    assert_eq!(reason(&[0xf4, 0x90, 0x80, 0x80]), RequestError::InvalidEncoding);
    assert_eq!(reason(&[0xe2, 0x82]), RequestError::InvalidEncoding);
}

#[test]
fn text_outside_ascii_is_still_text() {
    assert_eq!(reason("é,0.5,4".as_bytes()), RequestError::InvalidOrder);
    assert_eq!(reason("2,0.5,4,€".as_bytes()), RequestError::FieldCount);
}

#[test]
fn encoding_is_checked_before_the_fields() {
    assert_eq!(reason(&[0x78, 0x2c, 0xff]), RequestError::InvalidEncoding);
}

#[test]
fn fields_are_checked_from_left_to_right() {
    assert_eq!(reason(b"x,y,z"), RequestError::InvalidOrder);
    assert_eq!(reason(b"1,y,z"), RequestError::InvalidAlpha);
    assert_eq!(reason(b"1,1,z"), RequestError::InvalidSubdivisions);
}

#[test]
fn field_count_is_checked_before_the_fields() {
    assert_eq!(reason(b"x,y"), RequestError::FieldCount);
}

#[test]
fn white_space_around_the_request_is_dropped() {
    let request = parse_request(b" \t2,0.5,4\r\n").unwrap();
    assert_eq!(request.n, 2);
    assert_eq!(request.alpha, b"0.5".to_vec());
    assert_eq!(request.subdivisions, 4);
}

#[test]
fn white_space_outside_ascii_is_dropped_too() {
    let text = "\u{a0}\u{2003}3,-1e-3,0\u{3000}\u{85}";
    let request = parse_request(text.as_bytes()).unwrap();
    assert_eq!(request.n, 3);
    assert_eq!(request.alpha, b"-1e-3".to_vec());
    assert_eq!(request.subdivisions, 0);
}

#[test]
fn white_space_inside_the_request_stays() {
    assert_eq!(reason(b"2 ,0.5,4"), RequestError::InvalidOrder);
    assert_eq!(reason(b"2, 0.5,4"), RequestError::InvalidAlpha);
    assert_eq!(reason(b"2,0.5, 4"), RequestError::InvalidSubdivisions);
}

#[test]
fn order_zero_is_read() {
    let request = parse_request(b"0,0,0").unwrap();
    assert_eq!(request.n, 0);
    assert_eq!(request.subdivisions, 0);
}

#[test]
fn plus_sign_and_leading_zeros_are_read() {
    let request = parse_request(b"+02,+.5E+1,007").unwrap();
    assert_eq!(request.n, 2);
    assert_eq!(request.alpha, b"+.5E+1".to_vec());
    assert_eq!(request.subdivisions, 7);
}

#[test]
fn angle_may_be_a_name() {
    assert_eq!(parse_request(b"1,inf,1").unwrap().alpha, b"inf".to_vec());
    assert_eq!(parse_request(b"1,-Infinity,1").unwrap().alpha, b"-Infinity".to_vec());
    assert_eq!(parse_request(b"1,NaN,1").unwrap().alpha, b"NaN".to_vec());
}

#[test]
fn accepted_angle_is_a_literal_of_the_platform() {
    for text in ["2,0.5,4", "1,-3,0", "1,1e400,2", "1,.5,2", "1,5.,2", "1,+nan,2"] {
        let request = parse_request(text.as_bytes()).unwrap();
        let alpha = std::str::from_utf8(&request.alpha).unwrap();
        assert!(alpha.parse::<f64>().is_ok(), "{}", alpha);
    }
}

#[test]
fn error_texts() {
    assert_eq!(RequestError::InvalidEncoding.message(), "Error: invalid UTF-8");
    assert_eq!(
        RequestError::FieldCount.message(),
        "Error: expected 3 parameters (n,alpha,subdivisions)"
    );
    assert_eq!(RequestError::InvalidOrder.message(), "Error: invalid n");
    assert_eq!(RequestError::InvalidAlpha.message(), "Error: invalid alpha");
    assert_eq!(RequestError::InvalidSubdivisions.message(), "Error: invalid subdivisions");
}

#[test]
fn error_texts_share_their_prefix() {
    for reason in [
        RequestError::InvalidEncoding,
        RequestError::FieldCount,
        RequestError::InvalidOrder,
        RequestError::InvalidAlpha,
        RequestError::InvalidSubdivisions,
    ] {
        let text = reason.message();
        assert!(text.starts_with("Error: "));
        assert!(text.len() > "Error: ".len());
        assert!(text.is_ascii());
    }
}

#[test]
fn same_request_same_outcome() {
    for text in ["2,0.5,4", "2,0.5", "x,0.5,4", " 7,1e3,9 "] {
        let first = parse_request(text.as_bytes());
        let second = parse_request(text.as_bytes());
        match (first, second) {
            (Ok(a), Ok(b)) => {
                assert_eq!(a.n, b.n);
                assert_eq!(a.alpha, b.alpha);
                assert_eq!(a.subdivisions, b.subdivisions);
            }
            (Err(a), Err(b)) => assert_eq!(a, b),
            _ => panic!("outcomes differ for {}", text),
        }
    }
}
