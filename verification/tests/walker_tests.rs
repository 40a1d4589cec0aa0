use std::rc::Rc;

use declarative_scraper::config::CardRules;
use declarative_scraper::config::EtlConfig;
use declarative_scraper::config::HttpConfig;
use declarative_scraper::config::HttpConfigRetries;
use declarative_scraper::config::MenuRules;
use declarative_scraper::config::SourceConfig;
use declarative_scraper::config::extract_source_config;
use declarative_scraper::data::TransformedData;
use declarative_scraper::rules::ParserTransfromRule;
use declarative_scraper::walker::PageError;
use declarative_scraper::walker::PageWalkerCore;
use declarative_scraper::walker::menu_item_urls;

type Rl = ParserTransfromRule;

fn source(name: &str) -> SourceConfig {
    SourceConfig {
        name: name.to_string(),
        root_url: "https://site.example".to_string(),
        menu: MenuRules {
            page_limit: 10,
            default_url: "/".to_string(),
            page_url_sub: "?page=\\1".to_string(),
            first_page_url: "?page=1".to_string(),
            rules: vec![Rl {
                selector: "li.card".to_string(),
                grouping: "menu_items".to_string(),
                children: Rc::new(vec![Rl {
                    selector: "a".to_string(),
                    children: Rc::new(vec![
                        Rl {
                            mapping: "url".to_string(),
                            attribute_name: "href".to_string(),
                            ..Default::default()
                        },
                        Rl { mapping: "label".to_string(), ..Default::default() },
                    ]),
                    ..Default::default()
                }]),
                ..Default::default()
            }],
        },
        card: CardRules {
            rules: vec![Rl {
                selector: "h1".to_string(),
                mapping: "title".to_string(),
                ..Default::default()
            }],
        },
    }
}

#[test]
fn test_name() {}

#[test]
fn test_iter() {
    let mut vars = (1, 11, false);
    for num in vars.0..vars.1 + 1 {
        vars.2 |= vars.1 == num && num != vars.1 + 1
    }
    assert_eq!(vars.2, true);
}

#[test]
fn source_lookup_by_name() {
    let etl = EtlConfig {
        http: HttpConfig {
            retries: HttpConfigRetries {
                max_retries: 3,
                backoff_factor: 2,
                timeout: 30,
                status_forcelist: vec![500],
            },
            headers: vec![],
        },
        sources: vec![source("alpha"), source("beta")],
    };
    assert_eq!(extract_source_config(&etl, &"beta".to_string()), Some(1));
    assert_eq!(extract_source_config(&etl, &"alpha".to_string()), Some(0));
    assert_eq!(extract_source_config(&etl, &"gamma".to_string()), None);
}

#[test]
fn pagination_urls() {
    let core = PageWalkerCore::create(source("alpha"), 10_000);
    // the first page takes the first-page suffix as it is
    assert_eq!(
        core.sub_page_number("/search?x=1", 1),
        "https://site.example/search?page=1&x=1"
    );
    // later pages take the template with the number substituted
    assert_eq!(
        core.sub_page_number("/search?x=1", 3),
        "https://site.example/search?page=3&x=1"
    );
}

#[test]
fn menu_items_read_out() {
    let mut menu = TransformedData::create_dict();
    let mut item = TransformedData::create_dict();
    item.push_value("url", TransformedData::Value("/card/1".to_string())).unwrap();
    let mut items = TransformedData::create_list();
    items.push_value_to_list(item).unwrap();
    menu.push_value("menu_items", items).unwrap();
    let urls = menu_item_urls(&menu).expect("shape");
    assert_eq!(urls, vec!["/card/1".to_string()]);

    // a missing `url` leaf is a shape failure
    let mut bad = TransformedData::create_dict();
    let mut items = TransformedData::create_list();
    items.push_value_to_list(TransformedData::create_dict()).unwrap();
    bad.push_value("menu_items", items).unwrap();
    assert!(menu_item_urls(&bad).is_none());
}

#[test]
fn page_flow_over_fetched_bodies() {
    let core = PageWalkerCore::create(source("alpha"), 10_000);
    let menu_html = r#"
        <ul>
          <li class="card"><a href="/card/1">One</a></li>
          <li class="card"><a href="/card/2">Two</a></li>
        </ul>
    "#;
    let mut task = core.on_menu_html(7, menu_html).expect("menu failed");
    assert_eq!(task.page_number, 7);
    assert_eq!(task.pending, vec!["/card/1".to_string(), "/card/2".to_string()]);

    let first = core.next_card_url(&task).expect("a card to fetch");
    assert_eq!(first, "https://site.example/card/1");
    core.on_card_html(&mut task, "<h1>First card</h1>").expect("card failed");

    let second = core.next_card_url(&task).expect("a second card");
    assert_eq!(second, "https://site.example/card/2");
    core.on_card_html(&mut task, "<h1>Second card</h1>").expect("card failed");

    assert!(core.next_card_url(&task).is_none());
    assert_eq!(task.records.len(), 2);
    let title = &task.records[0].iter().find(|p| p.0 == "title").expect("title").1;
    assert_eq!(*title, TransformedData::Value("First card".to_string()));
}

#[test]
fn empty_menu_page_yields_explicit_empty_records() {
    let core = PageWalkerCore::create(source("alpha"), 10_000);
    // no list item matches: the page is processed, with zero items
    let task = core.on_menu_html(3, "<ul></ul>").expect("menu failed");
    assert_eq!(task.page_number, 3);
    assert_eq!(task.pending.len(), 0);
    assert_eq!(task.records.len(), 0);
    assert!(core.next_card_url(&task).is_none());
}

#[test]
fn menu_extraction_failure_is_attributed() {
    let mut src = source("alpha");
    src.menu.rules = vec![Rl {
        selector: "li.card".to_string(),
        mapping: "x".to_string(),
        exception_on_not_found: true,
        ..Default::default()
    }];
    let core = PageWalkerCore::create(src, 10_000);
    let r = core.on_menu_html(1, "<p>empty</p>");
    assert!(matches!(r, Err(PageError::Transform { .. })));
}
