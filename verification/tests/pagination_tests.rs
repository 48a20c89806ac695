use wm_countries::json::JsonValue;
use wm_countries::pagination::{
    ContinuationSignal, ParamList, Traversal, continuation_of, fetch_all_pages, next_page_number,
    next_token,
};
use wm_countries::worldmobile::WmError;

fn jstr(x: &str) -> JsonValue {
    JsonValue::Str(String::from(x))
}

fn obj(entries: Vec<(&str, JsonValue)>) -> JsonValue {
    JsonValue::Obj(entries.into_iter().map(|(k, v)| (String::from(k), v)).collect())
}

fn meta(page: u64, total: u64) -> JsonValue {
    obj(vec![("page", JsonValue::UInt(page)), ("total_pages", JsonValue::UInt(total))])
}

fn param(t: &Traversal, i: usize, key: &str) -> Option<String> {
    t.requests[i].get(key).cloned()
}

#[test]
fn token_field_priority_and_emptiness() {
    let page = obj(vec![("next", jstr("")), ("nextToken", jstr("t2"))]);
    assert_eq!(next_token(&page), Some(String::from("t2")));
    let page2 = obj(vec![("next", jstr("t1")), ("nextToken", jstr("t2"))]);
    assert_eq!(next_token(&page2), Some(String::from("t1")));
    let page3 = obj(vec![("meta", obj(vec![("next_token", jstr("t3"))]))]);
    assert_eq!(next_token(&page3), Some(String::from("t3")));
    assert_eq!(next_token(&obj(vec![])), None);
}

#[test]
fn meta_counters_advance_page() {
    let page = obj(vec![("meta", meta(1, 3))]);
    assert_eq!(next_page_number(&page, 1), Some(2));
    let last = obj(vec![("meta", meta(3, 3))]);
    assert_eq!(next_page_number(&last, 3), None);
}

#[test]
fn meta_page_defaults_to_current() {
    let page = obj(vec![("meta", obj(vec![("total_pages", JsonValue::UInt(5))]))]);
    assert_eq!(next_page_number(&page, 2), Some(3));
}

#[test]
fn next_page_field_is_used() {
    let page = obj(vec![("next_page", JsonValue::UInt(7))]);
    assert_eq!(next_page_number(&page, 1), Some(7));
}

#[test]
fn link_url_page_number_is_extracted() {
    let page = obj(vec![(
        "links",
        obj(vec![("next", jstr("https://api.example.com/v1?page=7&size=10"))]),
    )]);
    assert_eq!(next_page_number(&page, 1), Some(7));
    let no_number = obj(vec![("links", obj(vec![("next", jstr("https://api.example.com/v1"))]))]);
    assert_eq!(next_page_number(&no_number, 1), None);
}

#[test]
fn token_beats_page_counters_in_signal() {
    let page = obj(vec![("next", jstr("tokA")), ("meta", meta(1, 9))]);
    match continuation_of(&page, 1) {
        ContinuationSignal::ContinuationToken(t) => assert_eq!(t, "tokA"),
        _ => panic!("expected the token to win"),
    }
}

#[test]
fn single_mode_performs_exactly_one_call() {
    // the response offers continuation signals; fetch_all=false ignores them
    let page = obj(vec![("next", jstr("more")), ("meta", meta(1, 9))]);
    let responses: Vec<Result<JsonValue, WmError>> = vec![Ok(page)];
    let base = ParamList::empty();
    let t = fetch_all_pages(responses, &base, false, false, None, 100, 1).unwrap();
    assert_eq!(t.requests.len(), 1);
    assert_eq!(t.pages.len(), 1);
    // the single call is not seeded with pagination parameters
    assert_eq!(param(&t, 0, "page"), None);
    assert_eq!(param(&t, 0, "page_size"), None);
}

#[test]
fn stub_mode_performs_exactly_one_call() {
    let page = obj(vec![("next", jstr("more"))]);
    let responses: Vec<Result<JsonValue, WmError>> = vec![Ok(page)];
    let base = ParamList::empty();
    let t = fetch_all_pages(responses, &base, true, true, Some(5), 100, 1).unwrap();
    assert_eq!(t.requests.len(), 1);
    assert_eq!(t.pages.len(), 1);
}

#[test]
fn fetch_all_stops_without_error_when_no_signal() {
    let responses: Vec<Result<JsonValue, WmError>> = vec![
        Ok(obj(vec![("meta", meta(1, 2))])),
        Ok(obj(vec![("meta", meta(2, 2))])),
        Ok(obj(vec![])),
        Ok(obj(vec![])),
        Ok(obj(vec![])),
    ];
    let base = ParamList::empty();
    let t = fetch_all_pages(responses, &base, true, false, None, 100, 5).unwrap();
    assert_eq!(t.pages.len(), 2);
    assert_eq!(t.requests.len(), 2);
    assert_eq!(param(&t, 0, "page"), Some(String::from("1")));
    assert_eq!(param(&t, 0, "page_size"), Some(String::from("100")));
    assert_eq!(param(&t, 1, "page"), Some(String::from("2")));
}

#[test]
fn fetch_all_stops_silently_at_page_cap() {
    // every page asks for more; the cap ends the loop with no error
    let responses: Vec<Result<JsonValue, WmError>> = vec![
        Ok(obj(vec![("next", jstr("a"))])),
        Ok(obj(vec![("next", jstr("b"))])),
    ];
    let base = ParamList::empty();
    let t = fetch_all_pages(responses, &base, true, false, None, 100, 2).unwrap();
    assert_eq!(t.pages.len(), 2);
}

#[test]
fn token_is_carried_not_the_incremented_page() {
    // the page offers both a token and counters: the next call uses the token
    let responses: Vec<Result<JsonValue, WmError>> = vec![
        Ok(obj(vec![("next", jstr("tok123")), ("meta", meta(1, 5))])),
        Ok(obj(vec![])),
    ];
    let base = ParamList::empty();
    let t = fetch_all_pages(responses, &base, true, false, None, 100, 2).unwrap();
    assert_eq!(t.requests.len(), 2);
    assert_eq!(param(&t, 1, "next"), Some(String::from("tok123")));
    // the page parameter stays at its seeded value
    assert_eq!(param(&t, 1, "page"), Some(String::from("1")));
}

#[test]
fn page_size_hint_overrides_default() {
    let responses: Vec<Result<JsonValue, WmError>> = vec![Ok(obj(vec![]))];
    let base = ParamList::empty();
    let t = fetch_all_pages(responses, &base, true, false, Some(25), 100, 1).unwrap();
    assert_eq!(param(&t, 0, "page_size"), Some(String::from("25")));
}

#[test]
fn failure_discards_all_pages() {
    let responses: Vec<Result<JsonValue, WmError>> = vec![
        Ok(obj(vec![("next", jstr("a"))])),
        Err(WmError::BadJson),
        Ok(obj(vec![])),
    ];
    let base = ParamList::empty();
    let r = fetch_all_pages(responses, &base, true, false, None, 100, 3);
    assert!(matches!(r, Err(WmError::BadJson)));
}

#[test]
fn base_filter_parameters_are_kept() {
    let mut base = ParamList::empty();
    base.set("country_code", String::from("US"));
    let responses: Vec<Result<JsonValue, WmError>> = vec![Ok(obj(vec![]))];
    let t = fetch_all_pages(responses, &base, true, false, None, 100, 1).unwrap();
    assert_eq!(param(&t, 0, "country_code"), Some(String::from("US")));
}

#[test]
fn link_url_without_token_gives_page_number_signal() {
    let page = obj(vec![(
        "links",
        obj(vec![("next", jstr("https://api.example.com/v1?size=10&page=9"))]),
    )]);
    match continuation_of(&page, 1) {
        ContinuationSignal::NextPageNumber(n) => assert_eq!(n, 9),
        _ => panic!("expected a page-number signal"),
    }
}

#[test]
fn truncating_page_counters_follow_u32_arithmetic() {
    // a total beyond 32 bits truncates, as the counters are 32-bit
    let page = obj(vec![("meta", obj(vec![("total_pages", JsonValue::UInt(1 << 32))]))]);
    assert_eq!(next_page_number(&page, 1), None);
}
