use wiki_bfs::json::{member, parse_json, Json};

#[test]
fn reads_scalars() {
    assert_eq!(parse_json("null").ok(), Some(Json::Null));
    assert_eq!(parse_json("true").ok(), Some(Json::Bool(true)));
    assert_eq!(parse_json("\"a\\u00e9\"").ok(), Some(Json::Str("a\u{e9}".to_string())));
}

#[test]
fn numbers_keep_what_fits_a_u64() {
    assert_eq!(parse_json("0").ok(), Some(Json::Number(Some(0))));
    assert_eq!(parse_json("18446744073709551615").ok(), Some(Json::Number(Some(u64::MAX))));
    assert_eq!(parse_json("-1").ok(), Some(Json::Number(None)));
    assert_eq!(parse_json("1.5").ok(), Some(Json::Number(None)));
}

#[test]
fn reads_arrays_and_objects() {
    let j = parse_json(r#"{"b": [1, "x"], "a": {}}"#).ok().unwrap();
    assert_eq!(member(&j, "b"), Some(&Json::Array(vec![Json::Number(Some(1)), Json::Str("x".to_string())])));
    assert_eq!(member(&j, "a"), Some(&Json::Object(vec![])));
    assert_eq!(member(&j, "c"), None);
}

#[test]
fn a_repeated_key_keeps_its_last_value() {
    let j = parse_json(r#"{"k": 1, "k": 2}"#).ok().unwrap();
    assert_eq!(member(&j, "k"), Some(&Json::Number(Some(2))));
}

#[test]
fn member_of_a_non_object_is_none() {
    assert_eq!(member(&Json::Array(vec![]), "k"), None);
    assert_eq!(member(&Json::Null, "k"), None);
}

#[test]
fn refuses_what_is_no_json() {
    assert!(parse_json("").is_err());
    assert!(parse_json("{").is_err());
    assert!(parse_json("[1,]").is_err());
    assert!(parse_json("nul").is_err());
}
