use senec_v3_collector::model::MetricProfile;
use senec_v3_collector::profile::{normalize_profile, unique_keys};
use senec_v3_collector::text::normalize_metrics_path;

fn profile(entries: &[(&str, &[&str])]) -> MetricProfile {
    MetricProfile {
        objects: entries
            .iter()
            .map(|(o, ks)| (o.to_string(), ks.iter().map(|k| k.to_string()).collect()))
            .collect(),
    }
}

fn owned(p: &MetricProfile) -> Vec<(String, Vec<String>)> {
    p.objects.clone()
}

#[test]
fn drops_blank_keys_and_empty_objects() {
    let p = profile(&[
        ("BMS", &["", "  ", "\t\u{3000}"]),
        ("ENERGY", &["GUI_HOUSE_POW", " ", "GUI_GRID_POW", "GUI_HOUSE_POW"]),
        ("PV1", &[]),
        ("STAT", &[" X "]),
    ]);
    let n = normalize_profile(p);
    assert_eq!(
        owned(&n),
        vec![
            ("ENERGY".to_string(), vec!["GUI_GRID_POW".to_string(), "GUI_HOUSE_POW".to_string()]),
            ("STAT".to_string(), vec![" X ".to_string()]),
        ]
    );
}

#[test]
fn normalizing_twice_changes_nothing() {
    let p = profile(&[("A", &["b", "a", "b", " "]), ("B", &[""]), ("C", &["z", "y"])]);
    let once = normalize_profile(p);
    let twice = normalize_profile(once.clone());
    assert_eq!(owned(&once), owned(&twice));
}

#[test]
fn an_empty_profile_stays_empty() {
    let n = normalize_profile(profile(&[("A", &[" "])]));
    assert!(n.is_empty());
}

#[test]
fn sorts_keys_by_code_point() {
    let keys: Vec<String> = ["b", "B", "a", "Ä", "_", "ab", "a"].iter().map(|s| s.to_string()).collect();
    let mut expected = keys.clone();
    expected.sort();
    expected.dedup();
    assert_eq!(unique_keys(&keys), expected);
}

#[test]
fn adds_a_leading_slash_to_the_metrics_route() {
    assert_eq!(normalize_metrics_path("metrics"), "/metrics");
    assert_eq!(normalize_metrics_path("/metrics"), "/metrics");
    assert_eq!(normalize_metrics_path(""), "/");
    assert_eq!(normalize_metrics_path(&normalize_metrics_path("x")), "/x");
}
