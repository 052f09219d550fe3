use sonar::json::{as_str, get, get_in, Json};

#[test]
fn get_reads_object_fields() {
    let v = Json::Object(vec![
        ("type".to_string(), Json::Str("content_block_delta".to_string())),
        ("delta".to_string(), Json::Object(vec![("text".to_string(), Json::Str("問い".to_string()))])),
        ("index".to_string(), Json::Number("0".to_string())),
    ]);
    assert_eq!(as_str(get(&v, "type")), Some("content_block_delta"));
    assert_eq!(as_str(get_in(get(&v, "delta"), "text")), Some("問い"));
    assert_eq!(as_str(get(&v, "index")), None);
    assert!(get(&v, "missing").is_none());
    assert!(get_in(get(&v, "missing"), "text").is_none());
}

#[test]
fn get_on_non_objects_is_null() {
    let a = Json::Array(vec![Json::Null, Json::Bool(true)]);
    assert!(get(&a, "type").is_none());
    assert!(get(&Json::Str("x".to_string()), "x").is_none());
    assert_eq!(as_str(Some(&Json::Str("x".to_string()))), Some("x"));
    assert_eq!(as_str(None), None);
}
