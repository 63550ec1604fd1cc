use senec_v3_collector::model::MetricProfile;
use senec_v3_collector::query::{effective_chunk_size, merge_reply, plan_requests, DeviceAnswers};

fn strings(v: &[&str]) -> Vec<String> {
    v.iter().map(|s| s.to_string()).collect()
}

fn pairs(v: &[(&str, &str)]) -> Vec<(String, String)> {
    v.iter().map(|(a, b)| (a.to_string(), b.to_string())).collect()
}

#[test]
fn a_chunk_size_below_one_is_raised_to_one() {
    assert_eq!(effective_chunk_size(0), 1);
    assert_eq!(effective_chunk_size(1), 1);
    assert_eq!(effective_chunk_size(20), 20);
}

#[test]
fn cuts_each_object_into_chunks() {
    let request = MetricProfile {
        objects: vec![
            ("BMS".to_string(), strings(&["A", "B", "C", "D", "E"])),
            ("EMPTY".to_string(), vec![]),
            ("ENERGY".to_string(), strings(&["X", "Y"])),
        ],
    };
    let plan = plan_requests(&request, 2);
    assert_eq!(
        plan,
        vec![
            ("BMS".to_string(), strings(&["A", "B"])),
            ("BMS".to_string(), strings(&["C", "D"])),
            ("BMS".to_string(), strings(&["E"])),
            ("ENERGY".to_string(), strings(&["X", "Y"])),
        ]
    );
    let one = plan_requests(&request, 1);
    assert_eq!(one.len(), 7);
    let big = plan_requests(&request, 100);
    assert_eq!(big.len(), 2);
}

#[test]
fn merges_what_the_device_answered() {
    let mut answers = DeviceAnswers::new();
    merge_reply(
        &mut answers,
        "ENERGY",
        &strings(&["B", "A", "C"]),
        Some(pairs(&[("A", "u1_0001"), ("B", "FORBIDDEN"), ("Z", "u1_0009")])),
    );
    merge_reply(&mut answers, "BMS", &strings(&["X"]), None);
    merge_reply(&mut answers, "AAA", &strings(&["X"]), Some(vec![]));
    merge_reply(&mut answers, "ENERGY", &strings(&["D", "A"]), Some(pairs(&[("A", "u1_0002"), ("D", "[1,2]")])));
    assert_eq!(
        answers.objects,
        vec![
            ("AAA".to_string(), vec![]),
            (
                "ENERGY".to_string(),
                pairs(&[("A", "u1_0002"), ("B", "FORBIDDEN"), ("D", "[1,2]")])
            ),
        ]
    );
}

#[test]
fn a_reply_holding_a_key_twice_counts_its_last_value() {
    let mut answers = DeviceAnswers::new();
    merge_reply(&mut answers, "O", &strings(&["K"]), Some(pairs(&[("K", "1"), ("K", "2")])));
    assert_eq!(answers.objects, vec![("O".to_string(), pairs(&[("K", "2")]))]);
}
