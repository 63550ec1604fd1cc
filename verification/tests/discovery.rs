use regex::Regex;
use senec_v3_collector::discovery::{
    extract_action_keys, extract_action_objects, extract_html_paths, extract_ids, extract_objects,
    extract_properties, extract_property_objects, normalize_path,
};

#[test]
fn normalizes_paths() {
    assert_eq!(normalize_path("./abc.html"), "/abc.html");
    assert_eq!(normalize_path("abc.html"), "/abc.html");
    assert_eq!(normalize_path("/abc.html"), "/abc.html");
}

#[test]
fn keeps_absolute_urls() {
    assert_eq!(normalize_path("http://x/a.html"), "http://x/a.html");
    assert_eq!(normalize_path("https://x/a.html"), "https://x/a.html");
    assert_eq!(normalize_path(""), "/");
    assert_eq!(normalize_path("./"), "/");
    assert_eq!(normalize_path(".//a"), "//a");
}

#[test]
fn normalizing_a_path_twice_changes_nothing() {
    for p in ["./abc.html", "abc.html", "/abc.html", "", ".", "./", "http://h/x", "x/./y"] {
        let once = normalize_path(p);
        assert_eq!(normalize_path(&once), once);
    }
}

#[test]
fn extracts_objects_from_js() {
    let js = r#"x.add_json_object("ENERGY");x.add_json_object("BMS");"#;
    let objects = extract_objects(js);
    assert_eq!(objects, vec!["BMS", "ENERGY"]);
}

#[test]
fn extracts_action_keys_from_js() {
    let js = r#"x.handleButtonClick("BMS","WIZARD_START");"#;
    let keys = extract_action_keys(js);
    assert_eq!(keys, vec![("BMS".to_string(), "WIZARD_START".to_string())]);
}

const SAMPLE_JS: &str = r#"a.add_json_object("ENERGY");a.add_json_object("BMS");a.add_json_object("ENERGY");a.add_json_object("bad");a.add_json_object("");a.add_json_object("X")b.add_property_to_object("ENERGY","GUI_GRID_POW");b.add_property_to_object("PV1","MPP_POWER");b.add_property_to_object("ENERGY","GUI_HOUSE_POW",1);b.add_property_to_object("A","b");c.handleTextAreaUpdateArray("WIZARD","SETUP_X");c.handleTextAreaUpdate("WIZARD","NAME");c.handleCheckBoxUpdateArray("BAT1","Y");c.handleSelectUpdate("STAT","MODE");c.handleButtonClickX("NO","NO");c.handleCheckBoxUpdate("FAN", "NO");load("./energy.html");load("settings/x.html");load("/abs.html");load(".html");load("a.html"b.html");load("x.htm");load("http://h/p.html");<div id="ENERGYGUI_BAT_DATA_POWER"></div><span id = 'BMSCELL' > id=STATSTATE><p id=""></p><p id=" PV1MPP_VOL "></p><p valid=ENERGYX id="a id="b"
<p id=
"FAN_X"> id= STATUS  id="unterminated"#;

fn regex_firsts(pattern: &str, text: &str) -> Vec<String> {
    let re = Regex::new(pattern).unwrap();
    re.captures_iter(text).map(|c| c[1].to_string()).collect()
}

fn regex_pairs(pattern: &str, text: &str) -> Vec<(String, String)> {
    let re = Regex::new(pattern).unwrap();
    re.captures_iter(text).map(|c| (c[1].to_string(), c[2].to_string())).collect()
}

fn sorted_unique(mut v: Vec<String>) -> Vec<String> {
    v.sort();
    v.dedup();
    v
}

const PROPERTY: &str = r#"add_property_to_object\("([A-Z0-9_]+)","([A-Z0-9_]+)""#;
const ACTION: &str = r#"(?:handleButtonClick|handleSelectUpdate|handleCheckBoxUpdate|handleTextAreaUpdate|handleTextAreaUpdateArray|handleCheckBoxUpdateArray)\("([A-Z0-9_]+)","([A-Z0-9_]+)""#;

#[test]
fn object_registrations_match_the_regular_expression() {
    let expected = sorted_unique(regex_firsts(r#"add_json_object\("([A-Z0-9_]+)"\)"#, SAMPLE_JS));
    assert_eq!(extract_objects(SAMPLE_JS), expected);
    assert_eq!(extract_objects(SAMPLE_JS), vec!["BMS", "ENERGY", "X"]);
}

#[test]
fn property_registrations_match_the_regular_expression() {
    assert_eq!(extract_properties(SAMPLE_JS), regex_pairs(PROPERTY, SAMPLE_JS));
    assert_eq!(extract_property_objects(SAMPLE_JS), sorted_unique(regex_firsts(PROPERTY, SAMPLE_JS)));
    assert_eq!(extract_property_objects(SAMPLE_JS), vec!["ENERGY", "PV1"]);
}

#[test]
fn control_handlers_match_the_regular_expression() {
    assert_eq!(extract_action_keys(SAMPLE_JS), regex_pairs(ACTION, SAMPLE_JS));
    assert_eq!(extract_action_objects(SAMPLE_JS), sorted_unique(regex_firsts(ACTION, SAMPLE_JS)));
    assert_eq!(
        extract_action_keys(SAMPLE_JS),
        vec![
            ("WIZARD".to_string(), "SETUP_X".to_string()),
            ("WIZARD".to_string(), "NAME".to_string()),
            ("BAT1".to_string(), "Y".to_string()),
            ("STAT".to_string(), "MODE".to_string()),
        ]
    );
}

#[test]
fn page_paths_match_the_regular_expression() {
    let raw = regex_firsts(r#""(\.?/?[A-Za-z0-9_./-]+\.html)""#, SAMPLE_JS);
    let expected = sorted_unique(raw.iter().map(|p| normalize_path(p)).collect());
    assert_eq!(extract_html_paths(SAMPLE_JS), expected);
    assert_eq!(
        extract_html_paths(SAMPLE_JS),
        vec!["/a.html", "/abs.html", "/energy.html", "/settings/x.html"]
    );
}

#[test]
fn ids_match_the_regular_expression() {
    let re = Regex::new(r#"id\s*=\s*(?:"([^"]+)"|([^\s>]+))"#).unwrap();
    let mut expected = Vec::new();
    for cap in re.captures_iter(SAMPLE_JS) {
        let id = cap
            .get(1)
            .or_else(|| cap.get(2))
            .map(|m| m.as_str())
            .unwrap_or_default()
            .trim_matches(['"', '\'', ' ']);
        if !id.is_empty() {
            expected.push(id.to_string());
        }
    }
    assert_eq!(extract_ids(SAMPLE_JS), expected);
    assert!(extract_ids(SAMPLE_JS).contains(&"ENERGYGUI_BAT_DATA_POWER".to_string()));
    assert!(extract_ids(SAMPLE_JS).contains(&"PV1MPP_VOL".to_string()));
}

#[test]
fn ids_in_unicode_white_space() {
    let html = "<a id\u{00A0}=\u{2003}\"ENERGYX\"><b id=BMSY\u{3000}z>";
    let re = Regex::new(r#"id\s*=\s*(?:"([^"]+)"|([^\s>]+))"#).unwrap();
    let expected: Vec<String> = re
        .captures_iter(html)
        .map(|c| c.get(1).or_else(|| c.get(2)).unwrap().as_str().to_string())
        .collect();
    assert_eq!(extract_ids(html), expected);
    assert_eq!(extract_ids(html), vec!["ENERGYX", "BMSY"]);
}

#[test]
fn empty_text_yields_nothing() {
    assert!(extract_objects("").is_empty());
    assert!(extract_properties("").is_empty());
    assert!(extract_ids("").is_empty());
    assert!(extract_html_paths("").is_empty());
}

struct Lcg(u64);

impl Lcg {
    fn next(&mut self) -> u64 {
        self.0 = self.0.wrapping_mul(6364136223846793005).wrapping_add(1442695040888963407);
        self.0 >> 33
    }
}

const FRAGMENTS: &[&str] = &[
    "add_json_object(\"", "add_property_to_object(\"", "handleButtonClick(\"", "handleSelectUpdate(\"",
    "handleCheckBoxUpdate(\"", "handleTextAreaUpdate(\"", "handleTextAreaUpdateArray(\"",
    "handleCheckBoxUpdateArray(\"", "handleTextAreaUpdate", "Array(\"", "\",\"", "\")", "id", " id=",
    "id =\"", ".html", "./", "/", "\"", "A", "B_1", "Z9", "x", " ", "\n", ">", "'", "=", "-", ".", "(",
    ")", ",", "\u{00A0}", "é", "ENERGY", "GUI_GRID_POW",
];

fn random_text(rng: &mut Lcg) -> String {
    let n = (rng.next() % 24) as usize;
    let mut s = String::new();
    for _ in 0..n {
        s.push_str(FRAGMENTS[(rng.next() as usize) % FRAGMENTS.len()]);
    }
    s
}

fn ids_with(re: &Regex, text: &str) -> Vec<String> {
    let mut out = Vec::new();
    for cap in re.captures_iter(text) {
        let id = cap
            .get(1)
            .or_else(|| cap.get(2))
            .map(|m| m.as_str())
            .unwrap_or_default()
            .trim_matches(['"', '\'', ' ']);
        if !id.is_empty() {
            out.push(id.to_string());
        }
    }
    out
}

fn firsts_with(re: &Regex, text: &str) -> Vec<String> {
    re.captures_iter(text).map(|c| c[1].to_string()).collect()
}

fn pairs_with(re: &Regex, text: &str) -> Vec<(String, String)> {
    re.captures_iter(text).map(|c| (c[1].to_string(), c[2].to_string())).collect()
}

#[test]
fn scanners_agree_with_the_regular_expressions_on_generated_text() {
    let objects = Regex::new(r#"add_json_object\("([A-Z0-9_]+)"\)"#).unwrap();
    let properties = Regex::new(PROPERTY).unwrap();
    let actions = Regex::new(ACTION).unwrap();
    let paths = Regex::new(r#""(\.?/?[A-Za-z0-9_./-]+\.html)""#).unwrap();
    let ids = Regex::new(r#"id\s*=\s*(?:"([^"]+)"|([^\s>]+))"#).unwrap();
    let mut rng = Lcg(0x5EC0_2024);
    for _ in 0..1500 {
        let text = random_text(&mut rng);
        assert_eq!(
            extract_objects(&text),
            sorted_unique(firsts_with(&objects, &text)),
            "objects of {text:?}"
        );
        assert_eq!(extract_properties(&text), pairs_with(&properties, &text), "properties of {text:?}");
        assert_eq!(extract_action_keys(&text), pairs_with(&actions, &text), "actions of {text:?}");
        let found = firsts_with(&paths, &text);
        assert_eq!(
            extract_html_paths(&text),
            sorted_unique(found.iter().map(|p| normalize_path(p)).collect()),
            "paths of {text:?}"
        );
        assert_eq!(extract_ids(&text), ids_with(&ids, &text), "ids of {text:?}");
    }
}
