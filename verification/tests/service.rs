use mapscrape::errors::{HandlerError, PoolError, ScrapeError};
use mapscrape::geolocate::IpLocator;
use mapscrape::query::Query;
use mapscrape::rational::parse_decimal;
use mapscrape::retry::{retry_budget, retry_step, timeout_result, RetryDecision};
use mapscrape::search::{
    classify_place_page, classify_results, more_reviews_outcome, search_result_locations,
    url_is_place, LocationInfo, SearchResult,
};
use mapscrape::strutil::{
    contains_sub, find_sub, last_nonempty_line, split_str, str_eq, tail_after_last_char, trim_str,
};

#[test]
fn substring_search() {
    assert_eq!(find_sub("abcabc", "ca"), Some(2));
    assert_eq!(find_sub("abc", "zz"), None);
    assert!(contains_sub("https://g/maps/place/x", "/maps/place"));
    assert!(!contains_sub("https://g/search", "/maps/place"));
}

#[test]
fn string_helpers() {
    assert_eq!(last_nonempty_line("a\nb\n\n"), "b");
    assert_eq!(last_nonempty_line("\n\n"), "");
    assert_eq!(last_nonempty_line("solo"), "solo");
    assert_eq!(tail_after_last_char("8/10", '/'), "10");
    assert_eq!(tail_after_last_char("10", '/'), "10");
    assert_eq!(trim_str("  x y\t"), "x y");
    assert_eq!(split_str("a,b,,c", ','), vec!["a", "b", "", "c"]);
    assert!(str_eq("abc", "abc"));
    assert!(!str_eq("abc", "abd"));
}

#[test]
fn decimal_literals_read_exactly() {
    let q = parse_decimal("4.5").unwrap();
    assert_eq!((q.num, q.den), (45, 10));
    let q = parse_decimal("-3").unwrap();
    assert_eq!((q.num, q.den), (-3, 1));
    let q = parse_decimal("10").unwrap();
    assert_eq!((q.num, q.den), (10, 1));
    assert!(parse_decimal("").is_none());
    assert!(parse_decimal("x").is_none());
    assert!(parse_decimal("4.").is_none());
    assert!(parse_decimal("1e5").is_none());
}

#[test]
fn query_arguments_decode_and_missing_ones_fail() {
    let q = Query::parse(Some("query=Grand+Hyatt&latitude=37.63&note=%20x")).unwrap();
    assert_eq!(q.get("query").unwrap(), "Grand Hyatt");
    assert_eq!(q.get("latitude").unwrap(), "37.63");
    assert_eq!(q.get("note").unwrap(), " x");
    assert!(matches!(q.get("missing"), Err(HandlerError::QueryError(_))));
}

#[test]
fn later_query_arguments_win() {
    let q = Query::parse(Some("a=1&a=2")).unwrap();
    assert_eq!(q.get("a").unwrap(), "2");
}

#[test]
fn missing_query_string_is_a_query_error() {
    assert!(matches!(Query::parse(None), Err(HandlerError::QueryError(_))));
}

#[test]
fn auto_navigated_search_classifies_as_single_result() {
    let url = "https://www.google.com/maps/place/Grand+Hyatt+Tampa+Bay".to_string();
    assert!(url_is_place(&url));
    let labels = vec![Some("Grand Hyatt Tampa Bay".to_string())];
    match classify_place_page(&url, &labels).unwrap() {
        SearchResult::Singular(info) => {
            assert_eq!(info.name, "Grand Hyatt Tampa Bay");
            assert!(contains_sub(&info.url, "/maps/place"));
            assert!(info.extra.is_empty());
        }
        _ => panic!("expected a single result"),
    }
}

#[test]
fn place_page_without_label_or_main_region_retries() {
    let url = "https://g/maps/place/x".to_string();
    let no_region: Vec<Option<String>> = Vec::new();
    assert!(matches!(
        classify_place_page(&url, &no_region),
        Err(ScrapeError::ParseError(_))
    ));
    let unlabeled = vec![None];
    assert!(matches!(
        classify_place_page(&url, &unlabeled),
        Err(ScrapeError::ParseError(_))
    ));
}

#[test]
fn results_page_classification() {
    assert!(matches!(
        classify_results(true, Vec::new()),
        Ok(SearchResult::NotFound)
    ));
    let dest = vec![LocationInfo {
        name: "A".to_string(),
        url: "https://g/maps/place/a".to_string(),
        extra: vec!["open late".to_string()],
    }];
    match classify_results(false, dest).unwrap() {
        SearchResult::Multiple(v) => assert_eq!(v.len(), 1),
        _ => panic!("expected multiple results"),
    }
    assert!(matches!(
        classify_results(false, Vec::new()),
        Err(ScrapeError::ParseError(_))
    ));
}

#[test]
fn search_results_flatten_to_location_lists() {
    assert_eq!(search_result_locations(SearchResult::NotFound).len(), 0);
    let info = LocationInfo {
        name: "A".to_string(),
        url: "u".to_string(),
        extra: Vec::new(),
    };
    let single = search_result_locations(SearchResult::Singular(info));
    assert_eq!(single.len(), 1);
    assert_eq!(single[0].name, "A");
}

#[test]
fn more_reviews_control() {
    assert!(more_reviews_outcome(true).is_ok());
    assert!(matches!(
        more_reviews_outcome(false),
        Err(ScrapeError::ParseError(_))
    ));
}

#[test]
fn retry_budget_is_deadline_over_interval() {
    assert_eq!(retry_budget(1), 10);
    assert_eq!(retry_budget(3), 3);
}

#[test]
fn retry_loop_decisions() {
    assert!(matches!(
        retry_step(Ok(5u32), None),
        RetryDecision::Done(Ok(5))
    ));
    let stale = ScrapeError::WebDriverError {
        stale: true,
        message: "stale element reference".to_string(),
    };
    assert!(matches!(
        retry_step::<u32>(Err(stale), None),
        RetryDecision::RetryAfterSleep(None)
    ));
    let hard = ScrapeError::WebDriverError {
        stale: false,
        message: "session lost".to_string(),
    };
    assert!(matches!(
        retry_step::<u32>(Err(hard), None),
        RetryDecision::Done(Err(ScrapeError::WebDriverError { .. }))
    ));
    let fatal = ScrapeError::fatal_parse_error("schema changed".to_string());
    assert!(matches!(
        retry_step::<u32>(Err(fatal), None),
        RetryDecision::Done(Err(ScrapeError::FatalParseError(_)))
    ));
    let soft = ScrapeError::parse_error("not rendered yet".to_string());
    assert!(matches!(
        retry_step::<u32>(Err(soft), None),
        RetryDecision::RetryAfterSleep(Some(ScrapeError::ParseError(_)))
    ));
}

#[test]
fn deadline_error_carries_the_last_symptom() {
    let last = ScrapeError::parse_error("still empty".to_string());
    match timeout_result(Some(last)) {
        ScrapeError::TimeoutError(msg, Some(inner)) => {
            assert_eq!(msg, "timeout while waiting for results");
            assert!(matches!(*inner, ScrapeError::ParseError(_)));
        }
        _ => panic!("expected a timeout with an inner cause"),
    }
    assert!(matches!(
        timeout_result(None),
        ScrapeError::TimeoutError(_, None)
    ));
}

#[test]
fn pool_error_message() {
    assert_eq!(PoolError::PoolClosed.message(), "client pool is closed");
}

#[test]
fn error_messages_name_the_variant_and_the_cause() {
    let inner = ScrapeError::parse_error("still empty".to_string());
    let e = ScrapeError::timeout("gave up".to_string(), Some(inner));
    assert_eq!(e.message(), "TimeoutError(gave up, ParseError(still empty))");
    let h = HandlerError::QueryError("no argument: query".to_string());
    assert_eq!(h.message(), "QueryError(no argument: query)");
    let hp = HandlerError::PoolError(PoolError::PoolClosed);
    assert_eq!(hp.message(), "PoolError(client pool is closed)");
}

#[test]
fn nearest_ip_entry_wins_and_later_entries_break_ties() {
    let locator = IpLocator::new(vec![(10u32, (1.0f64, 2.0f64)), (100, (3.0, 4.0))], 0);
    // 0.0.0.50 sits 40 from the first entry and 50 from the second
    assert_eq!(locator.lookup("0.0.0.50"), Some((1.0, 2.0)));
    let tie = IpLocator::new(vec![(10u32, 'a'), (30, 'b')], 0);
    // 0.0.0.20 is 10 from both entries: the later one wins
    assert_eq!(tie.lookup("0.0.0.20"), Some('b'));
}

#[test]
fn malformed_addresses_locate_nothing() {
    let locator = IpLocator::new(vec![(10u32, 'a')], 0);
    assert_eq!(locator.lookup("256.1.1.1"), None);
    assert_eq!(locator.lookup("1.2.3"), None);
    assert_eq!(locator.lookup("1.2.3.x"), None);
    assert_eq!(locator.lookup(""), None);
    let empty: IpLocator<char> = IpLocator::new(Vec::new(), 0);
    assert_eq!(empty.lookup("1.2.3.4"), None);
}

#[test]
fn forwarded_addresses_count_back_from_the_proxies() {
    let locator = IpLocator::new(vec![(0x01020304u32, 'a'), (0x05060708, 'b')], 1);
    // behind one proxy, the last forwarded address is the caller
    assert_eq!(
        locator.lookup_for_request(Some("9.9.9.9, 5.6.7.8"), "1.2.3.4"),
        Some('b')
    );
    // no forwarded header: fall back to the connection's address
    assert_eq!(locator.lookup_for_request(None, "1.2.3.4"), Some('a'));
    let two = IpLocator::new(vec![(0x01020304u32, 'a')], 2);
    // fewer forwarded entries than proxies names nobody
    assert_eq!(two.lookup_for_request(Some("5.6.7.8"), "1.2.3.4"), None);
}

#[test]
fn scrape_error_constructors() {
    assert!(matches!(
        ScrapeError::parse_error("m".to_string()),
        ScrapeError::ParseError(_)
    ));
    assert!(matches!(
        ScrapeError::fatal_parse_error("m".to_string()),
        ScrapeError::FatalParseError(_)
    ));
    let from_scrape: HandlerError = ScrapeError::parse_error("m".to_string()).into();
    assert!(matches!(from_scrape, HandlerError::ScrapeError(_)));
    let from_pool: HandlerError = PoolError::PoolClosed.into();
    assert!(matches!(from_pool, HandlerError::PoolError(_)));
}
