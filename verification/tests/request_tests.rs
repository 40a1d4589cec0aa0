use declarative_scraper::request::FetchOutcome;
use declarative_scraper::request::RequestMakerConfig;
use declarative_scraper::request::RequestParams;
use declarative_scraper::request::RequestMakerError;
use declarative_scraper::request::RetryDecision;
use declarative_scraper::request::backoff_delay_ms;
use declarative_scraper::request::plan_request;
use declarative_scraper::request::url_combine;
use declarative_scraper::request::url_combine_all;

#[test]
fn url_combine_cases() {
    // empty and bare-slash fragments change nothing
    assert_eq!(url_combine("https://x.example/a", ""), "https://x.example/a");
    assert_eq!(url_combine("https://x.example/a", "/"), "https://x.example/a");
    // a path fragment extends the path, and a duplicate slash never survives
    assert_eq!(url_combine("https://x.example/", "/b"), "https://x.example/b");
    assert_eq!(url_combine("https://x.example", "/b"), "https://x.example/b");
    // the base's query survives a path fragment, moving behind it
    assert_eq!(url_combine("https://x.example/a?q=1", "/b"), "https://x.example/a/b?q=1");
    // query fragments merge with `&`
    assert_eq!(url_combine("https://x.example/a?q=1", "?p=2"), "https://x.example/a?p=2&q=1");
    assert_eq!(url_combine("https://x.example/a", "p=2"), "https://x.example/a?p=2");
}

#[test]
fn url_combine_all_folds() {
    let combined = url_combine_all(&["https://x.example", "/search?x=1", "?page=3"]);
    assert_eq!(combined, "https://x.example/search?page=3&x=1");
}

#[test]
fn invalid_method_is_refused() {
    let config = RequestMakerConfig::default();
    let params = RequestParams { method: "GE T".to_string(), ..Default::default() };
    match plan_request(&config, &params) {
        Err(RequestMakerError::InvalidMethod { method }) => assert_eq!(method, "GE T"),
        other => panic!("unexpected plan {:?}", other.is_ok()),
    }
}

#[test]
fn lowercase_method_is_uppercased() {
    let config = RequestMakerConfig::default();
    let params = RequestParams { method: "get".to_string(), ..Default::default() };
    let plan = plan_request(&config, &params).expect("valid method refused");
    assert_eq!(plan.method, "GET");
    assert_eq!(plan.forcelist, vec![500, 502, 503, 504]);
}

#[test]
fn forcelisted_status_retries_then_fails() {
    let config = RequestMakerConfig { max_retries: 2, backoff_factor: 3, ..Default::default() };
    let params = RequestParams {
        method: "GET".to_string(),
        status_forcelist: Some(vec![200]),
        ..Default::default()
    };
    let mut plan = plan_request(&config, &params).expect("plan");
    // the forcelist override wins over the configured one
    assert_eq!(plan.forcelist, vec![200]);

    match plan.on_outcome(FetchOutcome::Status { code: 200 }) {
        RetryDecision::RetryAfter { delay_ms } => assert_eq!(delay_ms, 3),
        other => panic!("unexpected decision {:?}", matches!(other, RetryDecision::Accept { .. })),
    }
    match plan.on_outcome(FetchOutcome::Status { code: 200 }) {
        RetryDecision::RetryAfter { delay_ms } => assert_eq!(delay_ms, 9),
        _ => panic!("expected another retry"),
    }
    match plan.on_outcome(FetchOutcome::Status { code: 200 }) {
        RetryDecision::Fail { error } => match error {
            RequestMakerError::StatusCodeError { status_code, status_forcelist } => {
                assert_eq!(status_code, 200);
                assert_eq!(status_forcelist, vec![200]);
            }
            _ => panic!("wrong error kind"),
        },
        _ => panic!("expected exhaustion"),
    }
}

#[test]
fn off_forcelist_status_is_accepted() {
    let config = RequestMakerConfig::default();
    let params = RequestParams { method: "GET".to_string(), ..Default::default() };
    let mut plan = plan_request(&config, &params).expect("plan");
    // an ordinary HTTP error code off the forcelist comes back as it is
    match plan.on_outcome(FetchOutcome::Status { code: 404 }) {
        RetryDecision::Accept { code } => assert_eq!(code, 404),
        _ => panic!("expected acceptance"),
    }
}

#[test]
fn transport_failure_retries() {
    let config = RequestMakerConfig { max_retries: 1, backoff_factor: 2, ..Default::default() };
    let params = RequestParams { method: "GET".to_string(), ..Default::default() };
    let mut plan = plan_request(&config, &params).expect("plan");
    match plan.on_outcome(FetchOutcome::Transport { message: "reset".to_string() }) {
        RetryDecision::RetryAfter { delay_ms } => assert_eq!(delay_ms, 2),
        _ => panic!("expected a retry"),
    }
    match plan.on_outcome(FetchOutcome::Transport { message: "reset again".to_string() }) {
        RetryDecision::Fail { error } => match error {
            RequestMakerError::ReqwestError { message } => assert_eq!(message, "reset again"),
            _ => panic!("wrong error kind"),
        },
        _ => panic!("expected exhaustion"),
    }
}

#[test]
fn backoff_grows_exponentially() {
    assert_eq!(backoff_delay_ms(2, 1), 2);
    assert_eq!(backoff_delay_ms(2, 2), 4);
    assert_eq!(backoff_delay_ms(2, 3), 8);
    assert_eq!(backoff_delay_ms(10, 3), 1000);
    // the delay saturates instead of overflowing
    assert_eq!(backoff_delay_ms(u64::MAX, 9), u64::MAX);
}
