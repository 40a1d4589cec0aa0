use declarative_scraper::data::TransformedData;

fn value(s: &str) -> TransformedData {
    TransformedData::Value(s.to_string())
}

#[test]
fn escapes_in_leaves() {
    let d = value("a\"b\\c\nd\te\u{1}f");
    assert_eq!(d.to_json_string(), r#""a\"b\\c\nd\te\u0001f""#);
}

#[test]
fn nested_shapes() {
    let mut inner = TransformedData::create_list();
    inner.push_value_to_list(value("x")).unwrap();
    inner.push_value_to_list(TransformedData::create_dict()).unwrap();
    let mut d = TransformedData::create_dict();
    d.push_value("k", inner).unwrap();
    d.push_value("m", value("y")).unwrap();
    assert_eq!(d.to_json_string(), r#"{"k":["x",{}],"m":"y"}"#);
}

fn same_shape(ours: &TransformedData, theirs: &serde_json::Value) -> bool {
    match (ours, theirs) {
        (TransformedData::Value(s), serde_json::Value::String(t)) => s == t,
        (TransformedData::List(l), serde_json::Value::Array(a)) => {
            l.len() == a.len() && l.iter().zip(a.iter()).all(|(x, y)| same_shape(x, y))
        }
        (TransformedData::Dict(m), serde_json::Value::Object(o)) => {
            m.len() == o.len()
                && m.iter().all(|(k, v)| o.get(k).map(|w| same_shape(v, w)).unwrap_or(false))
        }
        _ => false,
    }
}

#[test]
fn round_trip_through_reader() {
    // serializing and re-reading reproduces the variant shape and leaves
    let mut lst = TransformedData::create_list();
    lst.push_value_to_list(value("plain")).unwrap();
    lst.push_value_to_list(value("quoted \" and \\ and \n control \u{2}")).unwrap();
    let mut item = TransformedData::create_dict();
    item.push_value("deep", value("leaf")).unwrap();
    lst.push_value_to_list(item).unwrap();
    let mut tree = TransformedData::create_dict();
    tree.push_value("items", lst).unwrap();
    tree.push_value("empty", TransformedData::create_list()).unwrap();

    let text = tree.to_json_string();
    let reread: serde_json::Value = serde_json::from_str(&text).expect("rereading failed");
    assert!(same_shape(&tree, &reread));
}

#[test]
fn round_trip_of_single_leaf() {
    let tree = value("it is all text");
    let reread: serde_json::Value =
        serde_json::from_str(&tree.to_json_string()).expect("rereading failed");
    assert!(same_shape(&tree, &reread));
}
