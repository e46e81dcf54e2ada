use mapscrape::errors::ScrapeError;
use mapscrape::reviews::{parse_logged_reviews, parse_recorded, rewrite_next_url, ReviewResult};
use mapscrape::stream::{IterStep, ReviewIter};

fn rat_f64(num: i128, den: i128) -> f64 {
    num as f64 / den as f64
}

const EXTERNAL_RATING_PAYLOAD: &str = "[[[[null,[null,null,1712345678000000,null,[[null,null,null,null,\"Alice\"]]],[null,null,null,null,null,null,null,null,[null,4,\"4/5\",\"0\"],[[\"Nice place\"]]]]]],null]";

#[test]
fn external_site_rating_is_rescaled_and_clamped() {
    let r = parse_logged_reviews("https://x/y!2sOLD!5e0", EXTERNAL_RATING_PAYLOAD).unwrap();
    assert_eq!(r.reviews.len(), 1);
    let review = &r.reviews[0];
    assert_eq!(review.author, "Alice");
    assert_eq!(review.content, "Nice place");
    // 4 on a "4/5" scale: 5/5 * 4 clamped into [1, 5] is exactly 4.0
    assert_eq!(rat_f64(review.rating.num, review.rating.den), 4.0);
    assert_eq!(
        rat_f64(review.timestamp.num, review.timestamp.den),
        1712345678.0
    );
    assert!(r.next_url.is_none());
}

#[test]
fn direct_rating_is_taken_as_is() {
    let payload = "[[[[null,[null,null,2000000,null,[[null,null,null,null,\"Bob\"]]],[[5],null,[[\"Great\"]]]]]],null]";
    let r = parse_logged_reviews("u", payload).unwrap();
    assert_eq!(r.reviews.len(), 1);
    assert_eq!(rat_f64(r.reviews[0].rating.num, r.reviews[0].rating.den), 5.0);
    assert_eq!(r.reviews[0].content, "Great");
    assert_eq!(rat_f64(r.reviews[0].timestamp.num, r.reviews[0].timestamp.den), 2.0);
}

#[test]
fn external_rating_above_scale_clamps_to_five() {
    // 9 on a "4/5" scale: 5/5 * 9 = 9, clamped to 5
    let payload = "[[[[null,[null,null,0,null,[[null,null,null,null,\"C\"]]],[null,null,null,null,null,null,null,null,[null,9,\"4/5\",\"0\"],[[\"x\"]]]]]],null]";
    let r = parse_logged_reviews("u", payload).unwrap();
    assert_eq!(rat_f64(r.reviews[0].rating.num, r.reviews[0].rating.den), 5.0);
}

#[test]
fn external_rating_below_scale_clamps_to_one() {
    // 0 on an "8/10" scale clamps up to 1
    let payload = "[[[[null,[null,null,0,null,[[null,null,null,null,\"C\"]]],[null,null,null,null,null,null,null,null,[null,0,\"8/10\",\"0\"],[[\"x\"]]]]]],null]";
    let r = parse_logged_reviews("u", payload).unwrap();
    assert_eq!(rat_f64(r.reviews[0].rating.num, r.reviews[0].rating.den), 1.0);
}

#[test]
fn empty_payload_yields_no_reviews_and_no_continuation() {
    let r = parse_logged_reviews("u", "[[], null, \"\"]").unwrap();
    assert_eq!(r.reviews.len(), 0);
    assert!(r.next_url.is_none());
}

#[test]
fn continuation_token_rewrite() {
    let r = rewrite_next_url("https://x/y!2sOLD!5e0", "T=").unwrap();
    assert_eq!(r, "https://x/y!2sT%3d!5e0");
}

#[test]
fn rewrite_without_marker_is_fatal() {
    let r = rewrite_next_url("https://x/y", "T=");
    assert!(matches!(r, Err(ScrapeError::FatalParseError(_))));
}

#[test]
fn rewrite_at_end_of_url() {
    let r = rewrite_next_url("https://x/y!2sOLD", "AB").unwrap();
    assert_eq!(r, "https://x/y!2sAB");
}

#[test]
fn continuation_token_is_rewritten_into_next_url() {
    let r = parse_logged_reviews("https://x/y!2sOLD!5e0", "[[], \"TOK=\"]").unwrap();
    assert_eq!(r.next_url.as_deref(), Some("https://x/y!2sTOK%3d!5e0"));
}

#[test]
fn last_nonempty_line_is_parsed() {
    let r = parse_logged_reviews("u", ")]}'\n[[], null]\n\n").unwrap();
    assert_eq!(r.reviews.len(), 0);
    assert!(r.next_url.is_none());
}

#[test]
fn empty_review_text_sentinel() {
    // the text container holds only a language marker
    let payload = "[[[[null,[null,null,0,null,[[null,null,null,null,\"D\"]]],[[3],null,[\"en\"]]]]],null]";
    let r = parse_logged_reviews("u", payload).unwrap();
    assert_eq!(r.reviews[0].content, "");
}

#[test]
fn guided_review_content_reads_as_empty_text() {
    // the text container holds structured, non-text content
    let payload = "[[[[null,[null,null,0,null,[[null,null,null,null,\"E\"]]],[[3],null,[[4]]]]]],null]";
    let r = parse_logged_reviews("u", payload).unwrap();
    assert_eq!(r.reviews[0].content, "");
}

#[test]
fn malformed_json_is_a_json_error() {
    let r = parse_logged_reviews("u", "{oops");
    assert!(matches!(r, Err(ScrapeError::JsonError(_))));
}

#[test]
fn missing_token_slot_is_fatal() {
    let r = parse_logged_reviews("u", "[]");
    assert!(matches!(r, Err(ScrapeError::FatalParseError(_))));
}

#[test]
fn non_list_root_is_fatal() {
    let r = parse_logged_reviews("u", "\"abc\"");
    assert!(matches!(r, Err(ScrapeError::FatalParseError(_))));
}

#[test]
fn unreadable_review_scale_is_recoverable() {
    let payload = "[[[[null,[null,null,0,null,[[null,null,null,null,\"F\"]]],[null,null,null,null,null,null,null,null,[null,4,\"x/y\",\"0\"],[[\"x\"]]]]]],null]";
    let r = parse_logged_reviews("u", payload);
    assert!(matches!(r, Err(ScrapeError::ParseError(_))));
}

#[test]
fn zero_review_scale_is_recoverable() {
    let payload = "[[[[null,[null,null,0,null,[[null,null,null,null,\"G\"]]],[null,null,null,null,null,null,null,null,[null,4,\"4/0\",\"0\"],[[\"x\"]]]]]],null]";
    let r = parse_logged_reviews("u", payload);
    assert!(matches!(r, Err(ScrapeError::ParseError(_))));
}

#[test]
fn empty_content_block_is_fatal() {
    // the record's content list has no slots at all
    let payload = "[[[[null,[null,null,0,null,[[null,null,null,null,\"H\"]]],[]]]],null]";
    let r = parse_logged_reviews("u", payload);
    assert!(matches!(r, Err(ScrapeError::FatalParseError(_))));
}

#[test]
fn review_lists_concatenate_in_order() {
    let entry = |author: &str| {
        format!(
            "[[null,[null,null,0,null,[[null,null,null,null,\"{}\"]]],[[1],null,[[\"t\"]]]]]",
            author
        )
    };
    let payload = format!(
        "[[{},{}],null,[{}]]",
        entry("A"),
        entry("B"),
        entry("C")
    );
    let r = parse_logged_reviews("u", &payload).unwrap();
    let authors: Vec<&str> = r.reviews.iter().map(|x| x.author.as_str()).collect();
    assert_eq!(authors, vec!["A", "B", "C"]);
}

#[test]
fn no_recorded_responses_is_recoverable() {
    let r = parse_recorded(&Vec::new());
    assert!(matches!(r, Err(ScrapeError::ParseError(_))));
}

#[test]
fn recorded_responses_concatenate_and_keep_last_continuation() {
    let recorded = vec![
        (
            "https://x/a!2sOLD!5e0".to_string(),
            "[[], \"T1=\"]".to_string(),
        ),
        ("https://x/b".to_string(), EXTERNAL_RATING_PAYLOAD.to_string()),
    ];
    let r = parse_recorded(&recorded).unwrap();
    assert_eq!(r.reviews.len(), 1);
    // the second payload carries no token, so the stream ends here
    assert!(r.next_url.is_none());
}

#[test]
fn stream_yields_one_batch_then_ends_without_continuation() {
    let first = parse_logged_reviews("u", EXTERNAL_RATING_PAYLOAD).unwrap();
    let mut it = ReviewIter::new(first);
    match it.next_step() {
        IterStep::Ready(batch) => assert_eq!(batch.len(), 1),
        _ => panic!("expected the pre-loaded batch"),
    }
    assert!(matches!(it.next_step(), IterStep::Done));
    assert!(matches!(it.next_step(), IterStep::Done));
}

#[test]
fn stream_fetches_continuation_then_ends() {
    let first = ReviewResult {
        next_url: Some("https://x/y!2sA!5e0".to_string()),
        reviews: Vec::new(),
    };
    let mut it = ReviewIter::new(first);
    match it.next_step() {
        IterStep::Ready(batch) => assert_eq!(batch.len(), 0),
        _ => panic!("expected the pre-loaded batch"),
    }
    let url = match it.next_step() {
        IterStep::Fetch(u) => u,
        _ => panic!("expected a fetch request"),
    };
    assert_eq!(url, "https://x/y!2sA!5e0");
    let batch = it.resume(&url, EXTERNAL_RATING_PAYLOAD).unwrap();
    assert_eq!(batch.len(), 1);
    assert!(matches!(it.next_step(), IterStep::Done));
}

#[test]
fn stream_error_ends_the_sequence() {
    let first = ReviewResult {
        next_url: Some("u".to_string()),
        reviews: Vec::new(),
    };
    let mut it = ReviewIter::new(first);
    let _ = it.next_step();
    let url = match it.next_step() {
        IterStep::Fetch(u) => u,
        _ => panic!("expected a fetch request"),
    };
    assert!(matches!(it.resume(&url, "{bad"), Err(ScrapeError::JsonError(_))));
    assert!(matches!(it.next_step(), IterStep::Done));
}
