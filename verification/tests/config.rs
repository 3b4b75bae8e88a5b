use kagari::config::{
    config_file, debug_enabled, load_visibility, load_window_size, save_visibility,
    save_window_size, visibility_of, window_size_of, WriteStep,
};
use kagari::json::{parse_bytes, parse_text, Json};
use kagari::labels::LabelMap;

fn number(n: i64) -> Json {
    Json::Number { double: Some((n as f64).to_bits()), integer: Some(n) }
}

fn object(members: Vec<(&str, Json)>) -> Json {
    Json::Object(members.into_iter().map(|(k, v)| (k.to_string(), v)).collect())
}

#[test]
fn debugging_takes_a_one() {
    assert!(debug_enabled(Some("1")));
    for v in [Some("0"), Some(""), Some("true"), Some("11"), None] {
        assert!(!debug_enabled(v));
    }
}

#[test]
fn the_configuration_directory_comes_before_the_home_directory() {
    let p = config_file(Some("/cfg"), Some("/home/u"), "window.json").unwrap();
    assert_eq!((p.root, p.below), ("/cfg", vec!["kagari".to_string(), "window.json".to_string()]));
    let p = config_file(None, Some("/home/u"), "visibility.json").unwrap();
    assert_eq!(p.root, "/home/u");
    assert_eq!(p.below, vec![".config", "kagari", "visibility.json"]);
    assert!(config_file::<&str>(None, None, "window.json").is_none());
}

#[test]
fn a_file_is_put_in_place_only_after_a_whole_write() {
    assert_eq!(WriteStep::first(true), WriteStep::CreateDir);
    assert_eq!(WriteStep::first(false), WriteStep::WriteTemp);
    for ok in [true, false] {
        assert_eq!(WriteStep::CreateDir.next(ok), WriteStep::WriteTemp);
        assert_eq!(WriteStep::Rename.next(ok), WriteStep::Done);
        assert_eq!(WriteStep::Done.next(ok), WriteStep::Done);
    }
    assert_eq!(WriteStep::WriteTemp.next(true), WriteStep::Rename);
    assert_eq!(WriteStep::WriteTemp.next(false), WriteStep::Done);
}

#[test]
fn on_off_states_survive_saving_and_loading() {
    let mut m = LabelMap::new();
    m.insert("coretemp Core 0", false);
    m.insert("CPU total", true);
    m.insert("quote \" and \\ and \u{1} and 篝", false);
    let text = save_visibility(&m).unwrap();
    assert!(text.starts_with("{\n  \"CPU total\": true,\n  \"coretemp Core 0\": false"));
    let loaded = load_visibility(Some(&text));
    assert_eq!(loaded.entries(), m.entries());
    assert_eq!(save_visibility(&LabelMap::new()).unwrap(), "{}");
}

#[test]
fn on_off_states_that_cannot_be_read_are_none() {
    for text in [None, Some(""), Some("nonsense"), Some("[true]"), Some("{\"a\": 1}"), Some("{\"a\": true} x")] {
        assert_eq!(load_visibility(text).len(), 0);
    }
    assert_eq!(visibility_of(None).len(), 0);
    let m = load_visibility(Some("{\"b\": true, \"a\": false, \"b\": false}"));
    assert_eq!(m.entries(), &vec![("a".to_string(), false), ("b".to_string(), false)]);
    let m = visibility_of(Some(vec![("b".to_string(), true), ("a".to_string(), false)]));
    assert_eq!(m.entries(), &vec![("a".to_string(), false), ("b".to_string(), true)]);
}

#[test]
fn the_window_size_survives_saving_and_loading() {
    let text = save_window_size(1280, 720);
    assert_eq!(text, "{\"height\":720,\"width\":1280}");
    assert_eq!(load_window_size(Some(&text)), (1280, 720));
    assert_eq!(save_window_size(i32::MIN, 0), "{\"height\":0,\"width\":-2147483648}");
    assert_eq!(load_window_size(Some(&save_window_size(i32::MAX, i32::MIN))), (i32::MAX, 300));
    assert_eq!(load_window_size(Some(&save_window_size(399, 300))), (400, 300));
}

#[test]
fn a_corrupt_window_size_is_not_tiny() {
    assert_eq!(load_window_size(None), (1100, 620));
    assert_eq!(load_window_size(Some("{")), (1100, 620));
    assert_eq!(load_window_size(Some("[]")), (1100, 620));
    assert_eq!(load_window_size(Some("{\"width\": 1}")), (400, 620));
    assert_eq!(load_window_size(Some("{\"width\": \"big\", \"height\": 1.5}")), (1100, 620));
    assert_eq!(load_window_size(Some("{\"width\": -5, \"height\": 99999999999999999999}")), (400, 620));
    // Only the low half of a number is taken.
    assert_eq!(load_window_size(Some("{\"width\": 4294968296, \"height\": 4294967301}")), (1000, 300));
    assert_eq!(load_window_size(Some("{\"width\": 2147483648, \"height\": -4294966296}")), (400, 1000));
}

#[test]
fn a_window_size_is_read_out_of_a_document() {
    assert_eq!(window_size_of(None), (1100, 620));
    assert_eq!(window_size_of(Some(&Json::Null)), (1100, 620));
    let doc = object(vec![("height", number(500)), ("width", number(900))]);
    assert_eq!(window_size_of(Some(&doc)), (900, 500));
    let doc = object(vec![("height", Json::Bool(true)), ("width", number(12))]);
    assert_eq!(window_size_of(Some(&doc)), (400, 620));
}

#[test]
fn documents_are_read_kind_by_kind() {
    let text = "{\"n\": null, \"b\": true, \"i\": -3, \"d\": 45.5, \"s\": \"x\", \"l\": [1], \"o\": {\"k\": 2}}";
    for doc in [parse_text(text), parse_bytes(text.as_bytes())] {
        let doc = doc.unwrap();
        assert!(matches!(doc.get("n"), Some(Json::Null)));
        assert!(matches!(doc.get("b"), Some(Json::Bool(true))));
        assert_eq!(doc.get("i").unwrap().as_i64(), Some(-3));
        assert_eq!(doc.get("i").unwrap().as_double_bits(), Some((-3.0f64).to_bits()));
        assert_eq!(doc.get("d").unwrap().as_i64(), None);
        assert_eq!(doc.get("d").unwrap().as_double_bits(), Some(45.5f64.to_bits()));
        assert!(matches!(doc.get("s"), Some(Json::Text(t)) if t == "x"));
        assert!(matches!(doc.get("l"), Some(Json::List(v)) if v.len() == 1 && v[0].as_i64() == Some(1)));
        assert_eq!(doc.get("o").unwrap().get("k").unwrap().as_i64(), Some(2));
        assert!(doc.get("absent").is_none());
        let names: Vec<&str> = doc.as_object().unwrap().iter().map(|e| e.0.as_str()).collect();
        assert_eq!(names, vec!["b", "d", "i", "l", "n", "o", "s"]);
    }
    assert!(parse_text("{").is_none());
    assert!(parse_bytes(&[0xff, 0xfe]).is_none());
    assert!(Json::Null.get("a").is_none() && Json::Null.as_i64().is_none());
    assert!(Json::Bool(true).as_object().is_none() && Json::Bool(true).as_double_bits().is_none());
}
