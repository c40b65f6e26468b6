use counter_service::Counter;
use counter_service::codec::ParseError;
use counter_service::codec::counter_from_json;
use counter_service::codec::counter_to_json;
use counter_service::codec::error_body;

fn round_trip(n: i32) {
    let bytes = counter_to_json(&Counter { number: n });
    let back = counter_from_json(&bytes).unwrap();
    assert_eq!(back.get(), n);
}

#[test]
fn serialize_exact_bytes() {
    assert_eq!(counter_to_json(&Counter { number: 0 }), b"{\"number\":0}".to_vec());
    assert_eq!(counter_to_json(&Counter { number: 100 }), b"{\"number\":100}".to_vec());
    assert_eq!(counter_to_json(&Counter { number: -42 }), b"{\"number\":-42}".to_vec());
}

#[test]
fn round_trip_zero_negative_positive() {
    round_trip(0);
    round_trip(1);
    round_trip(-1);
    round_trip(100);
    round_trip(-100);
    round_trip(i32::MAX);
    round_trip(i32::MIN);
}

#[test]
fn parse_accepts_whitespace() {
    let body = b" { \"number\" :\t-7 }\n".to_vec();
    assert_eq!(counter_from_json(&body).unwrap().get(), -7);
}

#[test]
fn parse_extreme_values() {
    let max = b"{\"number\":2147483647}".to_vec();
    assert_eq!(counter_from_json(&max).unwrap().get(), i32::MAX);
    let min = b"{\"number\":-2147483648}".to_vec();
    assert_eq!(counter_from_json(&min).unwrap().get(), i32::MIN);
}

#[test]
fn parse_rejects_malformed() {
    let cases: Vec<&[u8]> = vec![
        b"",
        b"{}",
        b"{\"number\":}",
        b"{\"number\":5",
        b"\"number\":5}",
        b"{\"numbed\":5}",
        b"{\"number\":05}",
        b"{\"number\":-}",
        b"{\"number\":5}x",
        b"{\"number\":5.0}",
        b"[5]",
    ];
    for case in cases {
        assert_eq!(counter_from_json(&case.to_vec()), Err(ParseError::Malformed));
    }
}

#[test]
fn parse_rejects_out_of_range() {
    let just_over = b"{\"number\":2147483648}".to_vec();
    assert_eq!(counter_from_json(&just_over), Err(ParseError::OutOfRange));
    let just_under = b"{\"number\":-2147483649}".to_vec();
    assert_eq!(counter_from_json(&just_under), Err(ParseError::OutOfRange));
    let huge = b"{\"number\":9999999999999999999999999}".to_vec();
    assert_eq!(counter_from_json(&huge), Err(ParseError::OutOfRange));
}

#[test]
fn error_body_exact_bytes() {
    let msg = b"boom".to_vec();
    assert_eq!(error_body(&msg), b"{\"error\":\"boom\"}".to_vec());
}
