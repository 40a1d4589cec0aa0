use declarative_scraper::data::TransformedData;
use declarative_scraper::errors::TransformError;

fn value(s: &str) -> TransformedData {
    TransformedData::Value(s.to_string())
}

fn get<'a>(d: &'a TransformedData, k: &str) -> &'a TransformedData {
    d.get(k).expect("key missing")
}

#[test]
fn defs_json_test() {
    let mut lst = TransformedData::create_list();
    lst.push_value_to_list(value("1")).unwrap();
    lst.push_value_to_list(value("2")).unwrap();
    lst.push_value_to_list(value("3")).unwrap();
    let mut data = TransformedData::create_dict();
    data.push_value_path("test.a.b", lst).unwrap();
    let json_expected = r#"{"test":{"a":{"b":["1","2","3"]}}}"#;
    assert_eq!(data.to_json_string(), json_expected);
}

#[test]
fn def_json_test() {
    let mut lst = TransformedData::create_list();
    lst.push_value_to_list(value("1")).unwrap();
    lst.push_value_to_list(value("2")).unwrap();
    lst.push_value_to_list(value("3")).unwrap();
    let mut data = TransformedData::create_dict();
    data.push_value_path("test.a.b", lst).unwrap();
    assert_eq!(data.to_json_string(), r#"{"test":{"a":{"b":["1","2","3"]}}}"#);
}

#[test]
fn transform_html_json_test() {
    let mut lst = TransformedData::create_list();
    lst.push_value_to_list(value("1")).unwrap();
    lst.push_value_to_list(value("2")).unwrap();
    lst.push_value_to_list(value("3")).unwrap();
    let mut data = TransformedData::create_dict();
    data.push_value_path("test.a.b", lst).unwrap();
    assert_eq!(data.to_json_string(), r#"{"test":{"a":{"b":["1","2","3"]}}}"#);
}

#[test]
fn defs_path_value_test() {
    let mut data = TransformedData::create_dict();

    data.push_value_path("another_one", value("one")).unwrap();
    data.push_value_path(".", value("dot")).unwrap();
    data.push_value_path("....", value("dots")).unwrap();

    data.push_value_path("test.a.b", value("1")).unwrap();
    data.push_value_path("test.a.c", value("1")).unwrap();
    data.push_value_path("test.a.d.", value("2")).unwrap();

    assert_eq!(*get(&data, "another_one"), value("one"));
    // a path of dots alone degrades to a literal key
    assert_eq!(*get(&data, "."), value("dot"));
    assert_eq!(*get(&data, "...."), value("dots"));
    assert_eq!(*get(get(get(&data, "test"), "a"), "b"), value("1"));
    assert_eq!(*get(get(get(&data, "test"), "a"), "d"), value("2"));

    // an empty key into a dictionary is a malformed path
    let r = TransformedData::create_dict().push_value_path("", value("2"));
    assert!(matches!(r, Err(TransformError::InvalidPath)));
}

#[test]
fn def_path_value_test() {
    let mut data = TransformedData::create_dict();
    data.push_value_path("test.a.b", value("1")).unwrap();
    data.push_value_path("test.a.c", value("2")).unwrap();
    // sibling writes leave earlier leaves alone
    assert_eq!(*get(get(get(&data, "test"), "a"), "b"), value("1"));
    assert_eq!(*get(get(get(&data, "test"), "a"), "c"), value("2"));
    let r = TransformedData::create_dict().push_value_path("", value("x"));
    assert!(matches!(r, Err(TransformError::InvalidPath)));
}

#[test]
fn def_check_expand_data() {
    let consumer = |td1: &mut TransformedData| {
        let _: &mut TransformedData = match td1 {
            TransformedData::List(lst) => {
                lst.push(TransformedData::Dict(TransformedData::create_data_map()));
                lst.last_mut().unwrap()
            }
            TransformedData::Dict(_) => td1,
            _ => td1,
        };
    };
    let mut td1 = TransformedData::List(TransformedData::create_data_vec());
    consumer(&mut td1);
}

#[test]
fn defs_check_expand_data() {
    let consumer = |td1: &mut TransformedData| {
        let _: &mut TransformedData = match td1 {
            TransformedData::List(lst) => {
                lst.push(TransformedData::Dict(TransformedData::create_data_map()));
                lst.last_mut().unwrap()
            }
            TransformedData::Dict(_) => td1,
            _ => td1,
        };
    };
    let mut td1 = TransformedData::List(TransformedData::create_data_vec());
    consumer(&mut td1);
}

#[test]
fn def_check_iter_windows() {
    let vec = vec![1, 2, 3];
    for it in vec.windows(2) {
        let [prev, cur] = it else { panic!() };
        println!("= {:?} {:?}", prev, cur);
    }
    println!("{:?}", vec);
}

#[test]
fn defs_check_iter_windows() {
    let vec = vec![1, 2, 3];
    for it in vec.windows(2) {
        let [prev, cur] = it else { panic!() };
        println!("= {:?} {:?}", prev, cur);
    }
    println!("{:?}", vec);
}

#[test]
fn push_value_list_appends() {
    // a list target ignores the path's key semantics and appends
    let mut data = TransformedData::create_list();
    data.push_value_path("ignored", value("a")).unwrap();
    data.push_value_path("also.ignored", value("b")).unwrap();
    match &data {
        TransformedData::List(l) => {
            assert_eq!(l.len(), 2);
            assert_eq!(l[0], value("a"));
            // a multi-segment path walks into a fresh dictionary
            assert_eq!(*get(&l[1], "ignored"), value("b"));
        }
        _ => panic!("expected a list"),
    }
}

#[test]
fn push_value_wrong_variant() {
    let mut leaf = value("x");
    let r = leaf.push_value("k", value("y"));
    assert!(matches!(r, Err(TransformError::UnsupportedTarget)));
    // the node is unchanged on failure
    assert_eq!(leaf, value("x"));
}

#[test]
fn group_list_wrapper_appends() {
    let mut data = TransformedData::create_dict();
    data.as_group_list_wrapper("g", value("1")).unwrap();
    data.as_group_list_wrapper("g", value("2")).unwrap();
    match get(&data, "g") {
        TransformedData::List(l) => {
            assert_eq!(l.len(), 2);
            assert_eq!(l[0], value("1"));
            assert_eq!(l[1], value("2"));
        }
        _ => panic!("expected a list at the grouping key"),
    }
    let mut leaf = value("v");
    let r = leaf.as_group_list_wrapper("g", value("3"));
    assert!(matches!(r, Err(TransformError::UnsupportedTarget)));
}

#[test]
fn map_wrapper_on_list_appends_dict() {
    let mut data = TransformedData::create_list();
    data.as_map_wrapper().unwrap();
    match &data {
        TransformedData::List(l) => {
            assert_eq!(l.len(), 1);
            assert!(matches!(l[0], TransformedData::Dict(_)));
        }
        _ => panic!("expected a list"),
    }
    let mut d = TransformedData::create_dict();
    d.as_map_wrapper().unwrap();
    assert_eq!(d, TransformedData::create_dict());
}
