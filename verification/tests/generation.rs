use dxl_tables::actuator::Actuator;
use dxl_tables::codegen::{aggregate, collect_names, create_address_lib, create_lib};
use dxl_tables::errors::GenError;
use dxl_tables::records::{AccessLevel, ControlTableData, RangeValue};

fn record(address: u16, size: u8, name: &str) -> ControlTableData {
    ControlTableData {
        address,
        size,
        data_name: Some(name.to_string()),
        description: Some(format!("About {}", name)),
        access: AccessLevel::ReadWrite,
        initial_value: Some(RangeValue::Integer(0)),
        range: Some((RangeValue::Integer(0), RangeValue::Integer(1023))),
        units: None,
    }
}

fn device(series: &str, raw_name: &str, records: Vec<ControlTableData>) -> Actuator {
    Actuator {
        series: series.to_string(),
        raw_name: raw_name.to_string(),
        name: raw_name.to_uppercase(),
        data: records,
    }
}

#[test]
fn generated_text_is_identical_for_any_input_order() {
    let one = || device("ax", "ax-12a", vec![record(0, 2, "ModelNumber"), record(6, 1, "BaudRate")]);
    let two = || device("mx", "mx-28", vec![record(0, 2, "ModelNumber"), record(30, 2, "GoalPosition")]);
    let (lib_a, cargo_a) = create_lib(&vec![one(), two()]).unwrap();
    let (lib_b, cargo_b) = create_lib(&vec![two(), one()]).unwrap();
    assert_eq!(lib_a, lib_b);
    assert_eq!(cargo_a, cargo_b);
}

#[test]
fn three_devices_in_any_order_generate_the_same_text() {
    let one = || device("ax", "ax-12a", vec![record(0, 2, "ModelNumber")]);
    let two = || device("mx", "mx-28", vec![record(30, 2, "GoalPosition")]);
    let three = || device("mx", "mx-64", vec![record(6, 1, "BaudRate")]);
    let (lib_a, cargo_a) = create_lib(&vec![one(), two(), three()]).unwrap();
    let (lib_b, cargo_b) = create_lib(&vec![three(), one(), two()]).unwrap();
    let (lib_c, cargo_c) = create_lib(&vec![two(), three(), one()]).unwrap();
    assert_eq!(lib_a, lib_b);
    assert_eq!(lib_a, lib_c);
    assert_eq!(cargo_a, cargo_b);
    assert_eq!(cargo_a, cargo_c);
}

#[test]
fn one_model_scraped_twice_merges_its_fields() {
    let servos = vec![
        device("ax", "ax-12a", vec![record(0, 2, "ModelNumber")]),
        device("ax", "ax-12a", vec![record(6, 1, "BaudRate")]),
    ];
    let agg = aggregate(&servos).unwrap();
    assert_eq!(agg.len(), 1);
    assert_eq!(agg[0].models.len(), 1);
    let fields = &agg[0].models[0].fields;
    assert_eq!(fields.len(), 2);
    assert_eq!(fields[0].name, "BaudRate");
    assert_eq!(fields[1].name, "ModelNumber");
}

#[test]
fn cargo_manifest_is_exact() {
    let servos = vec![
        device("mx", "mx-28", vec![record(0, 2, "ModelNumber")]),
        device("ax", "ax-12a", vec![record(0, 2, "ModelNumber")]),
    ];
    let (_, cargo) = create_lib(&servos).unwrap();
    let expected = "[package]\nname = \"dxl-control-tables\"\nversion = \"0.1.0\"\nedition = \"2018\"\n\n[dependencies]\nthiserror = \"1.0.26\"\n\n[features]\ndefault = [\"AX\", \"MX\"]\nAX = []\nMX = []\n";
    assert_eq!(cargo, expected);
}

#[test]
fn library_text_holds_the_expected_parts() {
    let servos = vec![device("ax", "ax-12a", vec![record(6, 1, "BaudRate")])];
    let (lib, _) = create_lib(&servos).unwrap();
    assert!(lib.contains("pub enum DataName {\n    BaudRate,\n}"));
    assert!(lib.contains("pub enum Model {\n    #[cfg(feature = \"AX\")]\n    AX12A,\n}"));
    assert!(lib.contains("Model::AX12A => match name {"));
    assert!(lib.contains("DataName::BaudRate => Ok(ControlTableData {"));
    assert!(lib.contains("address: 6,"));
    assert!(lib.contains("access: AccessLevel::ReadWrite,"));
    assert!(lib.contains("initial_value: Some(RangeValue::Integer(0)),"));
    assert!(lib.contains("range: Some((RangeValue::Integer(0), RangeValue::Integer(1023))),"));
    assert!(lib.contains("description: Some(\"About BaudRate\"),"));
    assert!(lib.contains("_ => Err(ControlTableError::NoMatchingAddress { model, name }),"));
}

#[test]
fn address_only_mode_emits_bare_addresses() {
    let servos = vec![device("ax", "ax-12a", vec![record(6, 1, "BaudRate")])];
    let (lib, cargo) = create_address_lib(&servos).unwrap();
    assert!(lib.contains("pub fn address(model: Model, name: DataName) -> Result<u16, ControlTableError> {"));
    assert!(lib.contains("DataName::BaudRate => Ok(6),"));
    assert!(!lib.contains("ControlTableData"));
    assert!(lib.contains("pub enum DataName {\n    BaudRate,\n}"));
    assert!(cargo.contains("default = [\"AX\"]"));
}

#[test]
fn match_arms_are_sorted_by_address() {
    let servos = vec![device(
        "ax",
        "ax-12a",
        vec![record(30, 2, "GoalPosition"), record(6, 1, "BaudRate"), record(0, 2, "ModelNumber")],
    )];
    let (lib, _) = create_lib(&servos).unwrap();
    let a = lib.find("address: 0,").unwrap();
    let b = lib.find("address: 6,").unwrap();
    let c = lib.find("address: 30,").unwrap();
    assert!(a < b && b < c);
}

#[test]
fn model_key_drops_leading_digits_and_uppercases() {
    let servos = vec![device("xl", "2xl-430", vec![record(0, 2, "ModelNumber")])];
    let agg = aggregate(&servos).unwrap();
    assert_eq!(agg.len(), 1);
    assert_eq!(agg[0].series, "XL");
    assert_eq!(agg[0].models.len(), 1);
    assert_eq!(agg[0].models[0].model, "XL430");
}

#[test]
fn name_without_letters_fails() {
    let servos = vec![device("ax", "1234-", vec![record(0, 2, "ModelNumber")])];
    match create_lib(&servos) {
        Err(GenError::NoAlphabeticModelName { raw_name }) => assert_eq!(raw_name, "1234-"),
        other => panic!("unexpected: {:?}", other),
    }
}

#[test]
fn duplicate_field_name_last_write_wins() {
    let mut first = record(0, 2, "ModelNumber");
    first.description = Some(String::from("old"));
    let mut second = record(4, 2, "ModelNumber");
    second.description = Some(String::from("new"));
    let servos = vec![device("ax", "ax-12a", vec![first, second])];
    let agg = aggregate(&servos).unwrap();
    let fields = &agg[0].models[0].fields;
    assert_eq!(fields.len(), 1);
    assert_eq!(fields[0].data.address, 4);
    assert_eq!(fields[0].data.description.as_deref(), Some("new"));
}

#[test]
fn names_are_sorted_and_distinct() {
    let servos = vec![
        device("ax", "ax-12a", vec![record(0, 2, "ModelNumber"), record(6, 1, "BaudRate")]),
        device("mx", "mx-28", vec![record(0, 2, "ModelNumber")]),
    ];
    let names = collect_names(&servos);
    assert_eq!(names, vec!["BaudRate", "ModelNumber"]);
}

#[test]
fn descriptions_are_escaped() {
    let mut rec = record(0, 2, "ModelNumber");
    rec.description = Some(String::from("say \"hi\"\\"));
    let servos = vec![device("ax", "ax-12a", vec![rec])];
    let (lib, _) = create_lib(&servos).unwrap();
    assert!(lib.contains("description: Some(\"say \\\"hi\\\"\\\\\"),"));
}

#[test]
fn splits_saved_rows_and_columns() {
    let rows = dxl_tables::analysis::analysis_rows("Address, Data Name\n1, Led");
    assert_eq!(rows.len(), 2);
    assert_eq!(rows[0], vec!["Address", "Data Name"]);
    assert_eq!(rows[1], vec!["1", "Led"]);
}
