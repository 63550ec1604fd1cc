use senec_v3_collector::candidates::{add_page_ids, page_paths, script_candidates, script_object_names, select_answered};
use senec_v3_collector::model::MetricProfile;
use senec_v3_collector::query::{merge_reply, DeviceAnswers};

fn strings(v: &[&str]) -> Vec<String> {
    v.iter().map(|s| s.to_string()).collect()
}

const JS: &str = r#"x.add_json_object("ENERGY");x.add_property_to_object("PV1","MPP_POWER");x.add_property_to_object("ENERGY","GUI_GRID_POW");x.handleButtonClick("BMS","WIZARD_START");x.add_property_to_object("ENERGY","GUI_GRID_POW");<i id="ENERGYGUI_HOUSE_POW"></i><i id="ENERGY"></i><i id="NOPE_X"></i>load("./page.html")"#;

#[test]
fn the_script_yields_objects_and_keys() {
    assert_eq!(script_object_names(JS), strings(&["BMS", "ENERGY", "PV1"]));
    let c = script_candidates(JS);
    assert_eq!(
        c.objects,
        vec![
            ("BMS".to_string(), strings(&["WIZARD_START"])),
            ("ENERGY".to_string(), strings(&["GUI_GRID_POW", "GUI_HOUSE_POW"])),
            ("PV1".to_string(), strings(&["MPP_POWER"])),
        ]
    );
    assert_eq!(page_paths(JS), strings(&["/", "/page.html"]));
}

#[test]
fn an_id_belongs_to_the_first_object_it_starts_with() {
    let mut c = MetricProfile {
        objects: vec![
            ("BAT".to_string(), vec![]),
            ("BAT1".to_string(), strings(&["Z"])),
        ],
    };
    add_page_ids(&mut c, r#"<a id="BAT1SOC"><a id="BAT1"><b id='CX'>"#);
    assert_eq!(
        c.objects,
        vec![("BAT".to_string(), strings(&["1", "1SOC"])), ("BAT1".to_string(), strings(&["Z"]))]
    );
}

#[test]
fn keeps_only_keys_answered_with_a_value() {
    let candidates = script_candidates(JS);
    let mut answers = DeviceAnswers::new();
    merge_reply(
        &mut answers,
        "ENERGY",
        &strings(&["GUI_GRID_POW", "GUI_HOUSE_POW"]),
        Some(vec![
            ("GUI_GRID_POW".to_string(), "fl_00000000".to_string()),
            ("GUI_HOUSE_POW".to_string(), "VARIABLE_NOT_FOUND".to_string()),
        ]),
    );
    merge_reply(
        &mut answers,
        "BMS",
        &strings(&["WIZARD_START"]),
        Some(vec![("WIZARD_START".to_string(), "FORBIDDEN".to_string())]),
    );
    let profile = select_answered(&candidates, &answers);
    assert_eq!(profile.objects, vec![("ENERGY".to_string(), strings(&["GUI_GRID_POW"]))]);
}
