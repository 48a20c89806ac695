use wm_countries::json::JsonValue;
use wm_countries::pagination::{ParamList, fetch_all_pages};
use wm_countries::worldmobile::{WmError, map_err, resolve, stub_document};

fn jstr(x: &str) -> JsonValue {
    JsonValue::Str(String::from(x))
}

fn obj(entries: Vec<(&str, JsonValue)>) -> JsonValue {
    JsonValue::Obj(entries.into_iter().map(|(k, v)| (String::from(k), v)).collect())
}

fn meta(page: u64, total: u64) -> JsonValue {
    obj(vec![("page", JsonValue::UInt(page)), ("total_pages", JsonValue::UInt(total))])
}

#[test]
fn stub_mode_serves_stub_source_with_deterministic_count() {
    // stub mode: a single canned document, no network activity modelled
    let responses: Vec<Result<JsonValue, WmError>> = vec![Ok(stub_document())];
    let base = ParamList::empty();
    let t = fetch_all_pages(responses, &base, false, true, None, 100, 1).unwrap();
    assert_eq!(t.requests.len(), 1);
    let resp = resolve(true, true, Ok(t.pages), &stub_document()).unwrap();
    assert_eq!(resp.source, "stub");
    assert_eq!(resp.count, 3);
    assert_eq!(resp.count, resp.countries.len());
}

#[test]
fn two_meta_pages_aggregate_to_sorted_primary_result() {
    let p1 = obj(vec![
        ("meta", meta(1, 2)),
        ("data", JsonValue::Arr(vec![obj(vec![("country_code", jstr("US"))])])),
    ]);
    let p2 = obj(vec![
        ("meta", meta(2, 2)),
        (
            "data",
            JsonValue::Arr(vec![obj(vec![
                ("country_code", jstr("CA")),
                ("country_name", jstr("Canada")),
            ])]),
        ),
    ]);
    let responses: Vec<Result<JsonValue, WmError>> = vec![Ok(p1), Ok(p2), Ok(obj(vec![]))];
    let base = ParamList::empty();
    let t = fetch_all_pages(responses, &base, true, false, None, 100, 3).unwrap();
    assert_eq!(t.pages.len(), 2);
    let resp = resolve(false, false, Ok(t.pages), &stub_document()).unwrap();
    assert_eq!(resp.count, 2);
    assert_eq!(resp.source, "worldmobile");
    assert_eq!(resp.countries[0].code, "CA");
    assert_eq!(resp.countries[0].name, Some(String::from("Canada")));
    assert_eq!(resp.countries[1].code, "US");
    assert_eq!(resp.countries[1].name, None);
}

#[test]
fn transport_error_with_fail_open_serves_stub_content() {
    let failed: Result<Vec<JsonValue>, WmError> = Err(WmError::Http(String::from("boom")));
    let stub = stub_document();
    let resp = resolve(false, true, failed, &stub).unwrap();
    assert_eq!(resp.source, "fail_open_stub");
    // body equals the canned stub's normalized content
    let direct = resolve(false, false, Ok(vec![stub_document()]), &stub).unwrap();
    assert_eq!(resp.countries, direct.countries);
    assert_eq!(resp.count, direct.count);
}

#[test]
fn status_error_without_fail_open_passes_through() {
    let failed: Result<Vec<JsonValue>, WmError> = Err(WmError::Upstream {
        status: 503,
        body: String::from("upstream down"),
    });
    let stub = stub_document();
    let err = resolve(false, false, failed, &stub).unwrap_err();
    assert_eq!(err.0, 503);
    assert_eq!(err.1, "upstream down");
}

#[test]
fn missing_token_maps_to_500() {
    let (status, body) = map_err(WmError::MissingToken);
    assert_eq!(status, 500);
    assert_eq!(body, "WM_BEARER_TOKEN is not set");
}

#[test]
fn transport_error_maps_to_502() {
    let (status, body) = map_err(WmError::Http(String::from("connect refused")));
    assert_eq!(status, 502);
    assert_eq!(body, "request error: connect refused");
}

#[test]
fn bad_json_maps_to_502() {
    let (status, body) = map_err(WmError::BadJson);
    assert_eq!(status, 502);
    assert_eq!(body, "invalid JSON from upstream");
}

#[test]
fn stub_document_has_three_data_entries() {
    let stub = stub_document();
    let resp = resolve(true, false, Ok(vec![stub_document()]), &stub).unwrap();
    assert_eq!(resp.count, 3);
    let codes: Vec<&str> = resp.countries.iter().map(|c| c.code.as_str()).collect();
    assert_eq!(codes, vec!["GB", "UA", "US"]);
}

#[test]
fn missing_credential_is_never_substituted_by_fail_open() {
    let failed: Result<Vec<JsonValue>, WmError> = Err(WmError::MissingToken);
    let stub = stub_document();
    let err = resolve(false, true, failed, &stub).unwrap_err();
    assert_eq!(err.0, 500);
    assert_eq!(err.1, "WM_BEARER_TOKEN is not set");
}
