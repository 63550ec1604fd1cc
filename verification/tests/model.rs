use senec_v3_collector::model::{MetricProfile, ValueStatus};

#[test]
fn classifies_the_four_refusal_words() {
    assert_eq!(ValueStatus::from_raw("VARIABLE_NOT_FOUND"), ValueStatus::VariableNotFound);
    assert_eq!(ValueStatus::from_raw("FORBIDDEN"), ValueStatus::Forbidden);
    assert_eq!(ValueStatus::from_raw("OBJECT_NOT_FOUND"), ValueStatus::ObjectNotFound);
    assert_eq!(ValueStatus::from_raw("MALFORMED_VALUE"), ValueStatus::MalformedValue);
}

#[test]
fn anything_else_is_a_value() {
    assert_eq!(ValueStatus::from_raw("fl_3F800000"), ValueStatus::Value);
    assert_eq!(ValueStatus::from_raw("forbidden"), ValueStatus::Value);
    assert_eq!(ValueStatus::from_raw(" FORBIDDEN"), ValueStatus::Value);
    assert_eq!(ValueStatus::from_raw(""), ValueStatus::Value);
    assert!(ValueStatus::from_raw("st_text").is_ok());
    assert!(!ValueStatus::from_raw("FORBIDDEN").is_ok());
}

#[test]
fn an_empty_profile_is_empty() {
    assert!(MetricProfile::empty().is_empty());
    let p = MetricProfile { objects: vec![("ENERGY".to_string(), vec![])] };
    assert!(!p.is_empty());
}
