use dxl_tables::errors::{MandatoryColumn, NormalizeError};
use dxl_tables::merge::RawGrid;
use dxl_tables::normalize::parse_servo;
use dxl_tables::records::{AccessLevel, RangeValue};

fn grid(header: &[&str], rows: &[&[&str]]) -> RawGrid {
    RawGrid {
        header: header.iter().map(|h| h.to_string()).collect(),
        rows: rows.iter().map(|r| r.iter().map(|c| c.to_string()).collect()).collect(),
    }
}

const BASIC: [&str; 5] = ["Address", "Size(byte)", "Data Name", "Description", "Access"];

#[test]
fn basic_row_becomes_a_record() {
    let g = grid(&BASIC, &[&["0", "1", "Model Number", "Model number", "R"]]);
    let out = parse_servo(&g).unwrap();
    assert_eq!(out.records.len(), 1);
    let rec = &out.records[0];
    assert_eq!(rec.address, 0);
    assert_eq!(rec.size, 1);
    assert_eq!(rec.data_name.as_deref(), Some("ModelNumber"));
    assert_eq!(rec.description.as_deref(), Some("Model number"));
    assert_eq!(rec.access, AccessLevel::Read);
    assert!(rec.initial_value.is_none());
    assert!(rec.range.is_none());
    assert!(rec.units.is_none());
}

#[test]
fn access_tokens_map_to_levels() {
    let cases = [
        ("R", AccessLevel::Read),
        ("W", AccessLevel::Write),
        ("RW", AccessLevel::ReadWrite),
        ("R/RW", AccessLevel::ReadWrite),
    ];
    for (token, expected) in cases {
        let g = grid(&BASIC, &[&["10", "2", "Goal Position", "Target", token]]);
        let out = parse_servo(&g).unwrap();
        assert_eq!(out.records[0].access, expected);
    }
}

#[test]
fn unknown_access_token_is_fatal() {
    let g = grid(&BASIC, &[&["10", "2", "Goal Position", "Target", "RWX"]]);
    match parse_servo(&g) {
        Err(NormalizeError::UnknownAccessToken { row, token }) => {
            assert_eq!(row, 0);
            assert_eq!(token, "RWX");
        },
        other => panic!("unexpected: {:?}", other),
    }
}

#[test]
fn missing_address_is_fatal() {
    let g = grid(&BASIC, &[&["-", "1", "Model Number", "Model number", "R"]]);
    match parse_servo(&g) {
        Err(NormalizeError::MissingMandatoryField { row, column }) => {
            assert_eq!(row, 0);
            assert_eq!(column, MandatoryColumn::Address);
        },
        other => panic!("unexpected: {:?}", other),
    }
}

#[test]
fn unparsable_size_is_fatal() {
    let g = grid(&BASIC, &[&["1", "big", "Model Number", "Model number", "R"]]);
    match parse_servo(&g) {
        Err(NormalizeError::MissingMandatoryField { row, column }) => {
            assert_eq!(row, 0);
            assert_eq!(column, MandatoryColumn::Size);
        },
        other => panic!("unexpected: {:?}", other),
    }
}

#[test]
fn blank_separator_rows_are_discarded() {
    let g = grid(
        &BASIC,
        &[
            &["...", "-", "~", " ", "\u{a0}"],
            &["3", "1", "Led", "Status LED", "RW"],
        ],
    );
    let out = parse_servo(&g).unwrap();
    assert_eq!(out.records.len(), 1);
    assert_eq!(out.records[0].data_name.as_deref(), Some("Led"));
}

#[test]
fn indirect_rows_are_excluded_and_bounds_tracked() {
    let mut rows: Vec<Vec<String>> = Vec::new();
    rows.push(vec!["5".into(), "1".into(), "Led".into(), "LED".into(), "RW".into()]);
    for i in 1..=28u32 {
        rows.push(vec![
            format!("{}", 100 + i),
            "2".into(),
            format!("Indirect Address {}", i),
            "Redirect".into(),
            "RW".into(),
        ]);
    }
    rows.push(vec!["7".into(), "2".into(), "Goal".into(), "Target".into(), "RW".into()]);
    let g = RawGrid {
        header: BASIC.iter().map(|h| h.to_string()).collect(),
        rows,
    };
    let out = parse_servo(&g).unwrap();
    assert_eq!(out.records.len(), 2);
    assert_eq!(out.records[0].data_name.as_deref(), Some("Led"));
    assert_eq!(out.records[1].data_name.as_deref(), Some("Goal"));
    assert_eq!(out.indirect_bounds, Some((1, 28)));
}

#[test]
fn indirect_placeholder_rows_are_skipped_silently() {
    let g = grid(
        &BASIC,
        &[
            &["60", "1", "Indirect Data N", "Template", "RW"],
            &["3", "1", "Led", "LED", "RW"],
        ],
    );
    let out = parse_servo(&g).unwrap();
    assert_eq!(out.records.len(), 1);
    assert_eq!(out.indirect_bounds, None);
}

#[test]
fn tilde_range_cell_is_split() {
    let header = ["Address", "Size(byte)", "Data Name", "Access", "Range"];
    let g = grid(&header, &[&["8", "2", "Limit", "RW", "0 ~ 1,023"]]);
    let out = parse_servo(&g).unwrap();
    match &out.records[0].range {
        Some((RangeValue::Integer(lo), RangeValue::Integer(hi))) => {
            assert_eq!(*lo, 0);
            assert_eq!(*hi, 1023);
        },
        other => panic!("unexpected: {:?}", other),
    }
}

#[test]
fn symbolic_range_bounds() {
    let header = ["Address", "Size(byte)", "Data Name", "Access", "Range"];
    let g = grid(&header, &[&["8", "2", "Goal PWM", "RW", "-PWM Limit36 ~ PWM Limit36"]]);
    let out = parse_servo(&g).unwrap();
    match &out.records[0].range {
        Some((RangeValue::Symbolic { field_name: lo, negated: ln }, RangeValue::Symbolic {
            field_name: hi,
            negated: hn,
        })) => {
            assert_eq!(lo, "PWMLimit");
            assert!(*ln);
            assert_eq!(hi, "PWMLimit");
            assert!(!*hn);
        },
        other => panic!("unexpected: {:?}", other),
    }
}

#[test]
fn multi_tilde_range_is_left_absent() {
    let header = ["Address", "Size(byte)", "Data Name", "Access", "Range"];
    let g = grid(&header, &[&["8", "2", "Limit", "RW", "0 ~ 5 ~ 9"]]);
    let out = parse_servo(&g).unwrap();
    assert!(out.records[0].range.is_none());
}

#[test]
fn min_max_cells_form_a_range() {
    let header = ["Address", "Size(byte)", "Data Name", "Access", "Min", "Max"];
    let g = grid(&header, &[&["8", "2", "Limit", "RW", "-100", "100"]]);
    let out = parse_servo(&g).unwrap();
    match &out.records[0].range {
        Some((RangeValue::Integer(lo), RangeValue::Integer(hi))) => {
            assert_eq!(*lo, -100);
            assert_eq!(*hi, 100);
        },
        other => panic!("unexpected: {:?}", other),
    }
}

#[test]
fn min_without_max_leaves_range_absent() {
    let header = ["Address", "Size(byte)", "Data Name", "Access", "Min"];
    let g = grid(&header, &[&["8", "2", "Limit", "RW", "-100"]]);
    let out = parse_servo(&g).unwrap();
    assert!(out.records[0].range.is_none());
}

#[test]
fn initial_value_is_parsed_with_spaces_removed() {
    let header = ["Address", "Size(byte)", "Data Name", "Access", "Initial Value"];
    let g = grid(&header, &[&["8", "2", "Limit", "RW", "1 023"]]);
    let out = parse_servo(&g).unwrap();
    match &out.records[0].initial_value {
        Some(RangeValue::Integer(n)) => assert_eq!(*n, 1023),
        other => panic!("unexpected: {:?}", other),
    }
}

#[test]
fn symbolic_initial_value() {
    let header = ["Address", "Size(byte)", "Data Name", "Access", "Initial Value"];
    let g = grid(&header, &[&["8", "2", "Goal PWM", "RW", "-PWMLimit36"]]);
    let out = parse_servo(&g).unwrap();
    match &out.records[0].initial_value {
        Some(RangeValue::Symbolic { field_name, negated }) => {
            assert_eq!(field_name, "PWMLimit");
            assert!(*negated);
        },
        other => panic!("unexpected: {:?}", other),
    }
}

#[test]
fn short_rows_treat_missing_cells_as_absent() {
    let g = grid(&BASIC, &[&["9", "1", "Led"]]);
    match parse_servo(&g) {
        Err(NormalizeError::MissingMandatoryField { column, .. }) => {
            assert_eq!(column, MandatoryColumn::Access);
        },
        other => panic!("unexpected: {:?}", other),
    }
}
