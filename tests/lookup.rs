use rumblebars::context::{value_for_key_path_in_context, Globals};
use rumblebars::data::Node;
use rumblebars::keypath::parse_path;
use rumblebars::HBData;

fn path(p: &str) -> Vec<String> {
    parse_path(&p.chars().collect())
}

fn text_at(data: &HBData, key_path: &[&str]) -> Option<String> {
    let globals = Globals { root: data, index: None, first: None, last: None, key: None };
    let key_path: Vec<String> = key_path.iter().map(|s| s.to_string()).collect();
    value_for_key_path_in_context(&Node::Data(data), &key_path, &vec![], &globals, false).map(|n| {
        let mut out = Vec::new();
        n.write_value(&mut out);
        out.into_iter().collect()
    })
}

fn obj(pairs: Vec<(&str, HBData)>) -> HBData {
    HBData::Object(pairs.into_iter().map(|(k, v)| (k.to_string(), v)).collect())
}

#[test]
fn basic_keypath_matching() {
    assert_eq!(path("pouet"), vec!["pouet"]);
    assert_eq!(path("."), vec!["."]);
    assert_eq!(path("./"), vec!["."]);
    assert_eq!(path("[pouet]"), vec!["pouet"]);
    assert_eq!(path("[&!'i%%oeiod'].j"), vec!["&!'i%%oeiod'", "j"]);
    assert_eq!(path("j.[∂ßé©Ç]"), vec!["j", "∂ßé©Ç"]);
    assert_eq!(path("t.f"), vec!["t", "f"]);
    assert_eq!(path("t/f"), vec!["t", "f"]);
    assert_eq!(path("./prop"), vec![".", "prop"]);
    assert_eq!(path("../sibling"), vec!["..", "sibling"]);
    assert_eq!(path("@test"), vec!["@test"]);
    assert_eq!(path("../@ok"), vec!["..", "@ok"]);
    assert_eq!(path("t.f.@g.h.i"), vec!["t", "f", "@g", "h", "i"]);
    assert_eq!(path("../@g/h/i"), vec!["..", "@g", "h", "i"]);
}

#[test]
fn fetch_key_value() {
    let json = obj(vec![("a", HBData::Int(1))]);
    assert_eq!(text_at(&json, &["a"]).unwrap(), "1");
}

#[test]
fn fetch_key_value_level1() {
    let json = obj(vec![("a", obj(vec![("b", HBData::Int(1))]))]);
    assert_eq!(text_at(&json, &["a", "b"]).unwrap(), "1");
}

#[test]
fn fetch_key_value_array_level1() {
    let json = obj(vec![("a", HBData::Array(vec![HBData::Int(1), HBData::Int(2), HBData::Int(3)]))]);
    assert_eq!(text_at(&json, &["a", "0"]).unwrap(), "1");
}

#[test]
fn resolve_this_in_keypath() {
    let json = HBData::Str("hello".to_string());
    assert_eq!(text_at(&json, &["."]).unwrap(), "hello");
}

#[test]
fn resolve_this_subkey_in_keypath() {
    let json = obj(vec![("t", HBData::Str("hello".to_string()))]);
    assert_eq!(text_at(&json, &[".", "t"]).unwrap(), "hello");
}

#[test]
fn deep_path_none() {
    let json = obj(vec![("a", HBData::Int(1))]);
    assert!(text_at(&json, &["a", "b"]).is_none());
}

#[test]
fn missing_global_keeps_the_node() {
    let json = obj(vec![("a", HBData::Str("x".to_string()))]);
    assert_eq!(text_at(&json, &["@nothing", "a"]).unwrap(), "x");
}

#[test]
fn negative_and_large_numbers_render() {
    let json = obj(vec![("n", HBData::Int(i64::MIN)), ("m", HBData::Int(1234567890))]);
    assert_eq!(text_at(&json, &["n"]).unwrap(), "-9223372036854775808");
    assert_eq!(text_at(&json, &["m"]).unwrap(), "1234567890");
}
