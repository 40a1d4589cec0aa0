use std::rc::Rc;

use declarative_scraper::data::TransformedData;
use declarative_scraper::dom::parse_document;
use declarative_scraper::dom::root_id;
use declarative_scraper::engine::transform_html;
use declarative_scraper::engine::transform_html_map;
use declarative_scraper::engine::transform_html_single;
use declarative_scraper::errors::TransformError;
use declarative_scraper::rules::ParserTransfromRule;
use declarative_scraper::rules::TransformSettings;
use declarative_scraper::rules::bs_py_adopt_contains;
use declarative_scraper::rules::prepare_rx_sub_for_replace;

type Rl = ParserTransfromRule;

fn value(s: &str) -> TransformedData {
    TransformedData::Value(s.to_string())
}

fn get<'a>(m: &'a [(String, TransformedData)], k: &str) -> &'a TransformedData {
    &m.iter().find(|p| p.0 == k).expect("key missing").1
}

#[test]
fn transform_html_main_test() {
    let html = r#"
        <ul>
            <li class="test">Foo</li>
            <li>Bar</li>
            <li>Baz</li>
        </ul>
        <ul>
            <li class="test1">Foo1</li>
            <li>Bar1</li>
            <li>Baz1</li>
        </ul>
    "#;
    let rules = [
        Rl { selector: String::from(".test"), mapping: String::from("place"), ..Default::default() },
        Rl { selector: String::from("ul"), mapping: String::from("ul"), ..Default::default() },
        Rl { selector: String::from("li"), mapping: String::from("lis"), ..Default::default() },
    ];
    let data = transform_html_map(html, &rules, &TransformSettings::default()).expect("Err");
    assert_eq!(*get(&data, "place"), value("Foo"));
}

#[test]
fn mod_main_test() {
    let html = r#"
        <div>
        <div>
        <ul>
            <li class="test">Foo</li>
            <li>Bar</li>
            <li>Baz</li>
        </ul>
        <ul>
            <li class="test1">Foo1</li>
            <li>Bar1</li>
            <li>Baz1</li>
        </ul>
        </div>
        </div>
    "#;
    let rules = [
        Rl {
            selector: String::from(".test"),
            mapping: String::from("place"),
            ..Default::default()
        },
        Rl { selector: String::from("ul"), mapping: String::from("ul"), ..Default::default() },
        Rl {
            selector: String::from("li /* comments */ "),
            mapping: String::from("lis"),
            ..Default::default()
        },
        Rl {
            selector: String::from("ul li/*sss*/.test "),
            mapping: String::from("place2"),
            ..Default::default()
        },
        Rl {
            selector: "div".to_string(),
            grouping: "div_group".into(),
            children: Rc::new(vec![Rl { selector: "li".into(), ..Default::default() }]),
            ..Default::default()
        },
        Rl {
            selector: ".test1".to_string(),
            mapping: "test_json".to_string(),
            ..Default::default()
        },
    ];
    let data = transform_html_map(html, &rules, &TransformSettings::default()).expect("Err");
    assert_eq!(*get(&data, "place"), value("Foo"));
    assert_eq!(get(&data, "place"), get(&data, "place2"));
    assert_eq!(*get(&data, "test_json"), value("Foo1"));
}

#[test]
fn err_test() {
    let html = r#"
        <div>
        <div>
        <ul>
            <li class="test">Foo</li>
            <li>Bar</li>
            <li>Baz</li>
        </ul>
        <ul>
            <li class="test1">Foo1</li>
            <li>Bar1</li>
            <li>Baz1</li>
        </ul>
        </div>
        </div>
    "#;
    let rules = [
        Rl { selector: String::from("li"), mapping: String::from("place"), ..Default::default() },
        Rl {
            selector: "h1".to_string(),
            mapping: "h1_empty".into(),
            exception_on_not_found: true,
            ..Default::default()
        },
    ];

    let doc = parse_document(html);
    let root = root_id(&doc).expect("no root element");

    let mut transformed_data = TransformedData::create_dict();
    let shallow = TransformSettings { max_depth_level: 2, ..Default::default() };
    match transform_html_single(&mut transformed_data, &doc, root, &rules[0], 1, &shallow) {
        Ok(_) => panic!("error is missing"),
        Err(err) => {
            assert!(matches!(err, TransformError::RecursiveError { level: 2 }));
        }
    };

    let mut transformed_data = TransformedData::create_dict();
    match transform_html_single(
        &mut transformed_data,
        &doc,
        root,
        &rules[1],
        0,
        &TransformSettings::default(),
    ) {
        Ok(_) => panic!("error is missing"),
        Err(err) => match err {
            TransformError::AtLeastOneTagNotFoundError { tag_name } => {
                assert_eq!(tag_name, "h1");
            }
            other => panic!("unexpected error {:?}", other),
        },
    };
}

#[test]
fn selector_contains_test() {
    let html = r#"
    <html>
     <head></head>
     <body>
       <div>Here is <span>some text</span>.</div>
        <div>Here is some more text.</div>

     </body>
    </html>
    "#;
    let rules = [
        Rl {
            selector: String::from("div:-soup-contains(\"some text\") span"),
            mapping: String::from("place"),
            ..Default::default()
        },
        Rl {
            selector: String::from("div:-soup-contains(\"some text\") "),
            mapping: String::from("place2"),
            ..Default::default()
        },
    ];
    let data = transform_html_map(html, &rules, &TransformSettings::default()).expect("Err");
    assert_eq!(*get(&data, "place"), value("some text"));
}

#[test]
fn contains_selector_test() {
    let rule = Rl {
        selector: r#"li.property-facts__item"#.to_string(),
        ..Default::default()
    };
    assert_eq!(rule.is_contains_selector(), None);

    let rule = Rl {
        selector:
            r#"li.property-facts__item:-soup-contains( "Property type:")/*("")*/ .property-facts__value"#
                .to_string(),
        ..Default::default()
    };
    let Some((txt, (left, right))) = rule.is_contains_selector() else { panic!("empty result") };
    assert_eq!(txt, "Property type:");
    assert_eq!(left, "li.property-facts__item");
    assert_eq!(right, r#"/*("")*/ .property-facts__value"#);
}

fn nested_rules(depth: usize) -> Rl {
    // `depth` rules nested through `children`, all bare
    let mut rule = Rl { ..Default::default() };
    for _ in 1..depth {
        rule = Rl { children: Rc::new(vec![rule]), ..Default::default() };
    }
    rule
}

#[test]
fn depth_guard_fails_below_limit() {
    // three nested rules starting at level one reach level three
    let rules = [nested_rules(3)];
    let shallow = TransformSettings { max_depth_level: 2, ..Default::default() };
    let r = transform_html("<p>x</p>", &rules, &shallow);
    assert!(matches!(r, Err(TransformError::RecursiveError { .. })));
}

#[test]
fn depth_guard_passes_above_limit() {
    let rules = [nested_rules(3)];
    let roomy = TransformSettings { max_depth_level: 4, ..Default::default() };
    let r = transform_html("<p>x</p>", &rules, &roomy);
    assert!(r.is_ok());
}

#[test]
fn end_to_end_scenario() {
    let html = r#"<ul><li class="test">Foo</li><li>Bar</li></ul>"#;
    let rules = [
        Rl { selector: ".test".to_string(), mapping: "place".to_string(), ..Default::default() },
        Rl { selector: "li".to_string(), mapping: "lis".to_string(), ..Default::default() },
    ];
    let data = transform_html_map(html, &rules, &TransformSettings::default()).expect("Err");
    assert_eq!(*get(&data, "place"), value("Foo"));
    // both list items match the second selector; they accumulate at its key
    match get(&data, "lis") {
        TransformedData::List(l) => {
            assert_eq!(l.len(), 2);
            assert_eq!(l[0], value("Foo"));
            assert_eq!(l[1], value("Bar"));
        }
        other => panic!("unexpected shape {:?}", other),
    }
}

#[test]
fn selector_miss_is_silent_without_flag() {
    let rules = [Rl {
        selector: "h1".to_string(),
        mapping: "title".to_string(),
        ..Default::default()
    }];
    let data =
        transform_html_map("<p>nothing</p>", &rules, &TransformSettings::default()).expect("Err");
    assert!(data.is_empty());
}

#[test]
fn selector_miss_is_fatal_with_flag() {
    let rules = [Rl {
        selector: "h1.headline".to_string(),
        mapping: "title".to_string(),
        exception_on_not_found: true,
        ..Default::default()
    }];
    let r = transform_html_map("<p>nothing</p>", &rules, &TransformSettings::default());
    match r {
        Err(TransformError::AtLeastOneTagNotFoundError { tag_name }) => {
            assert_eq!(tag_name, "h1.headline");
        }
        other => panic!("unexpected result {:?}", other),
    }
}

#[test]
fn attribute_and_regex_sub() {
    let html = r#"<a href="/card/page-12/">go</a>"#;
    let rules = [Rl {
        selector: "a".to_string(),
        mapping: "url".to_string(),
        attribute_name: "href".to_string(),
        regex_sub_value: Some(("page-(\\d+)".to_string(), "p\\1".to_string())),
        ..Default::default()
    }];
    let data = transform_html_map(html, &rules, &TransformSettings::default()).expect("Err");
    assert_eq!(*get(&data, "url"), value("/card/p12/"));
}

#[test]
fn grouping_collects_matches() {
    let html = r#"
        <article><a href="/a">A</a><span>first</span></article>
        <article><a href="/b">B</a><span>second</span></article>
    "#;
    let rules = [Rl {
        selector: "article".to_string(),
        grouping: "items".to_string(),
        children: Rc::new(vec![Rl {
            selector: "a".to_string(),
            children: Rc::new(vec![
                Rl {
                    mapping: "url".to_string(),
                    attribute_name: "href".to_string(),
                    ..Default::default()
                },
                Rl { mapping: "label".to_string(), ..Default::default() },
            ]),
            ..Default::default()
        }]),
        ..Default::default()
    }];
    let data = transform_html_map(html, &rules, &TransformSettings::default()).expect("Err");
    match get(&data, "items") {
        TransformedData::List(l) => {
            assert_eq!(l.len(), 2);
            assert_eq!(*get(l[0].exract_dict(), "url"), value("/a"));
            assert_eq!(*get(l[1].exract_dict(), "url"), value("/b"));
            assert_eq!(*get(l[1].exract_dict(), "label"), value("B"));
        }
        other => panic!("unexpected shape {:?}", other),
    }
}

#[test]
fn grouping_with_no_match_yields_empty_list() {
    let rules = [Rl {
        selector: "article".to_string(),
        grouping: "items".to_string(),
        children: Rc::new(vec![Rl { mapping: "url".to_string(), ..Default::default() }]),
        ..Default::default()
    }];
    let data =
        transform_html_map("<p>bare</p>", &rules, &TransformSettings::default()).expect("Err");
    match get(&data, "items") {
        TransformedData::List(l) => assert_eq!(l.len(), 0),
        other => panic!("unexpected shape {:?}", other),
    }
}

#[test]
fn malformed_mapping_path_is_fatal() {
    // an empty middle segment walks an empty key into a dictionary
    let rules = [Rl {
        selector: "p".to_string(),
        mapping: "a..b".to_string(),
        ..Default::default()
    }];
    let r = transform_html_map("<p>x</p>", &rules, &TransformSettings::default());
    assert!(matches!(r, Err(TransformError::InvalidPath)));
}

#[test]
fn template_translation() {
    assert_eq!(prepare_rx_sub_for_replace(r"page-\1"), "page-$1");
    assert_eq!(prepare_rx_sub_for_replace(r"\12x\3"), "$12x$3");
    assert_eq!(prepare_rx_sub_for_replace(r"\\1"), r"\$1");
    assert_eq!(prepare_rx_sub_for_replace("plain"), "plain");
}

#[test]
fn adopt_contains_fences_the_filter() {
    let fenced = bs_py_adopt_contains(r#"li:-soup-contains( "Type:") .value"#);
    assert_eq!(fenced, r#"li/****//*:-soup-contains( "Type:")*//****/ .value"#);
    assert_eq!(bs_py_adopt_contains("li.item"), "li.item");
}
