use dxl_tables::errors::NormalizeError;
use dxl_tables::records::RangeValue;

#[test]
fn parses_plain_integer() {
    match RangeValue::new("1023") {
        Ok(RangeValue::Integer(n)) => assert_eq!(n, 1023),
        other => panic!("unexpected: {:?}", other),
    }
}

#[test]
fn parses_integer_with_commas() {
    match RangeValue::new("1,023") {
        Ok(RangeValue::Integer(n)) => assert_eq!(n, 1023),
        other => panic!("unexpected: {:?}", other),
    }
}

#[test]
fn parses_negative_integer() {
    match RangeValue::new("-42") {
        Ok(RangeValue::Integer(n)) => assert_eq!(n, -42),
        other => panic!("unexpected: {:?}", other),
    }
}

#[test]
fn symbolic_strips_digits_and_records_sign() {
    match RangeValue::new("-PWMLimit36") {
        Ok(RangeValue::Symbolic { field_name, negated }) => {
            assert_eq!(field_name, "PWMLimit");
            assert!(negated);
        },
        other => panic!("unexpected: {:?}", other),
    }
}

#[test]
fn symbolic_without_sign() {
    match RangeValue::new("VelocityLimit44") {
        Ok(RangeValue::Symbolic { field_name, negated }) => {
            assert_eq!(field_name, "VelocityLimit");
            assert!(!negated);
        },
        other => panic!("unexpected: {:?}", other),
    }
}

#[test]
fn rejects_mixed_token() {
    match RangeValue::new("12ab") {
        Err(NormalizeError::UnrecognizedRangeToken { token }) => assert_eq!(token, "12ab"),
        other => panic!("unexpected: {:?}", other),
    }
}

#[test]
fn rejects_empty_token() {
    assert!(matches!(
        RangeValue::new(""),
        Err(NormalizeError::UnrecognizedRangeToken { .. })
    ));
}

#[test]
fn rejects_bare_minus() {
    assert!(matches!(
        RangeValue::new("-"),
        Err(NormalizeError::UnrecognizedRangeToken { .. })
    ));
}

#[test]
fn rejects_integer_overflow() {
    assert!(matches!(
        RangeValue::new("99999999999999999999999999"),
        Err(NormalizeError::UnrecognizedRangeToken { .. })
    ));
}

#[test]
fn integer_render_round_trip() {
    for text in ["0", "7", "1023", "-1", "-65536", "9223372036854775807"] {
        let parsed = RangeValue::new(text).unwrap();
        let rendered = parsed.render();
        match (RangeValue::new(&rendered).unwrap(), parsed) {
            (RangeValue::Integer(a), RangeValue::Integer(b)) => assert_eq!(a, b),
            _ => panic!("integer expected"),
        }
    }
}

#[test]
fn leading_zeros_render_canonically() {
    let parsed = RangeValue::new("007").unwrap();
    match &parsed {
        RangeValue::Integer(n) => assert_eq!(*n, 7),
        other => panic!("unexpected: {:?}", other),
    }
    assert_eq!(parsed.render(), "7");
}

#[test]
fn renders_symbolic() {
    let v = RangeValue::Symbolic { field_name: String::from("PWMLimit"), negated: true };
    assert_eq!(v.render(), "-PWMLimit");
}
