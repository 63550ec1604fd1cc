use senec_v3_collector::decode::RawNumber;
use senec_v3_collector::poll::{collect_readings, index_label};
use senec_v3_collector::query::{merge_reply, DeviceAnswers};

fn strings(v: &[&str]) -> Vec<String> {
    v.iter().map(|s| s.to_string()).collect()
}

#[test]
fn one_sample_per_number_and_the_power_readings() {
    let mut answers = DeviceAnswers::new();
    merge_reply(
        &mut answers,
        "ENERGY",
        &strings(&["GUI_GRID_POW", "GUI_HOUSE_POW", "LIST"]),
        Some(vec![
            ("GUI_GRID_POW".to_string(), "i3_FFFFFFF6 u1_0001".to_string()),
            ("GUI_HOUSE_POW".to_string(), "u1_01F4".to_string()),
            ("LIST".to_string(), "[\"u8_01\",\"st_x\",\"u8_02\"]".to_string()),
        ]),
    );
    merge_reply(
        &mut answers,
        "BMS",
        &strings(&["GUI_GRID_POW"]),
        Some(vec![("GUI_GRID_POW".to_string(), "u1_0007".to_string())]),
    );
    let r = collect_readings(&answers);
    let got: Vec<(String, String, usize, RawNumber)> =
        r.samples.iter().map(|s| (s.object.clone(), s.key.clone(), s.index, s.value)).collect();
    assert_eq!(
        got,
        vec![
            ("BMS".to_string(), "GUI_GRID_POW".to_string(), 0, RawNumber::Unsigned(7)),
            ("ENERGY".to_string(), "GUI_GRID_POW".to_string(), 0, RawNumber::Signed(-10)),
            ("ENERGY".to_string(), "GUI_GRID_POW".to_string(), 1, RawNumber::Unsigned(1)),
            ("ENERGY".to_string(), "GUI_HOUSE_POW".to_string(), 0, RawNumber::Unsigned(500)),
            ("ENERGY".to_string(), "LIST".to_string(), 0, RawNumber::Unsigned(1)),
            ("ENERGY".to_string(), "LIST".to_string(), 1, RawNumber::Unsigned(2)),
        ]
    );
    assert_eq!(r.grid_power, Some(RawNumber::Signed(-10)));
    assert_eq!(r.house_power, Some(RawNumber::Unsigned(500)));
}

#[test]
fn no_power_readings_without_energy_answers() {
    let r = collect_readings(&DeviceAnswers::new());
    assert!(r.samples.is_empty());
    assert_eq!(r.grid_power, None);
    assert_eq!(r.house_power, None);
}

#[test]
fn index_labels_are_decimal() {
    assert_eq!(index_label(0), "0");
    assert_eq!(index_label(7), "7");
    assert_eq!(index_label(10), "10");
    assert_eq!(index_label(1203), "1203");
    assert_eq!(index_label(usize::MAX), usize::MAX.to_string());
}
