use wm_countries::extract::extract_countries;
use wm_countries::json::JsonValue;

fn jstr(x: &str) -> JsonValue {
    JsonValue::Str(String::from(x))
}

fn obj(entries: Vec<(&str, JsonValue)>) -> JsonValue {
    JsonValue::Obj(entries.into_iter().map(|(k, v)| (String::from(k), v)).collect())
}

#[test]
fn recovers_code_from_data_container() {
    let page = obj(vec![(
        "data",
        JsonValue::Arr(vec![obj(vec![
            ("country_code", jstr("US")),
            ("country_name", jstr("United States")),
        ])]),
    )]);
    let got = extract_countries(&page);
    assert_eq!(got, vec![(String::from("US"), Some(String::from("United States")))]);
}

#[test]
fn trims_code_and_name() {
    let page = obj(vec![("country_code", jstr("  US \n")), ("name", jstr("\tUnited States "))]);
    let got = extract_countries(&page);
    assert_eq!(got, vec![(String::from("US"), Some(String::from("United States")))]);
}

#[test]
fn rejects_code_empty_after_trim() {
    let page = obj(vec![("country_code", jstr("   ")), ("country_name", jstr("Nowhere"))]);
    let got = extract_countries(&page);
    assert!(got.is_empty());
}

#[test]
fn code_alias_priority_order() {
    let page = obj(vec![("code", jstr("ZZ")), ("country_code", jstr("US"))]);
    let got = extract_countries(&page);
    assert_eq!(got.len(), 1);
    assert_eq!(got[0].0, "US");
}

#[test]
fn name_absent_yields_none() {
    let page = obj(vec![("countryCode", jstr("CA"))]);
    let got = extract_countries(&page);
    assert_eq!(got, vec![(String::from("CA"), None)]);
}

#[test]
fn array_page_extracts_every_entry() {
    let page = JsonValue::Arr(vec![
        obj(vec![("country_code", jstr("US"))]),
        obj(vec![("country_code", jstr("CA"))]),
    ]);
    let got = extract_countries(&page);
    assert_eq!(got.len(), 2);
    assert_eq!(got[0].0, "US");
    assert_eq!(got[1].0, "CA");
}

#[test]
fn nested_supported_countries_list() {
    let page = obj(vec![(
        "data",
        JsonValue::Arr(vec![obj(vec![
            ("name", jstr("Bundle")),
            (
                "supportedCountries",
                JsonValue::Arr(vec![
                    obj(vec![("code", jstr("DE")), ("name", jstr("Germany"))]),
                    obj(vec![("country", jstr("FR"))]),
                ]),
            ),
        ])]),
    )]);
    let got = extract_countries(&page);
    assert_eq!(got, vec![
        (String::from("DE"), Some(String::from("Germany"))),
        (String::from("FR"), None),
    ]);
}

#[test]
fn page_can_be_container_and_record_at_once() {
    let page = obj(vec![
        ("country_code", jstr("GB")),
        ("items", JsonValue::Arr(vec![obj(vec![("country_code", jstr("US"))])])),
    ]);
    let got = extract_countries(&page);
    // container arrays come first, the page's own record last
    assert_eq!(got.len(), 2);
    assert_eq!(got[0].0, "US");
    assert_eq!(got[1].0, "GB");
}

#[test]
fn scalar_page_yields_nothing() {
    assert!(extract_countries(&jstr("hello")).is_empty());
    assert!(extract_countries(&JsonValue::UInt(5)).is_empty());
    assert!(extract_countries(&JsonValue::Null).is_empty());
}

#[test]
fn non_string_code_value_is_skipped() {
    let page = obj(vec![("country_code", JsonValue::UInt(42)), ("code", jstr("US"))]);
    let got = extract_countries(&page);
    assert_eq!(got.len(), 1);
    assert_eq!(got[0].0, "US");
}

#[test]
fn packages_and_results_containers_are_scanned() {
    let page = obj(vec![
        ("packages", JsonValue::Arr(vec![obj(vec![("country_code", jstr("JP"))])])),
        ("results", JsonValue::Arr(vec![obj(vec![("country_code", jstr("BR"))])])),
    ]);
    let got = extract_countries(&page);
    assert_eq!(got.len(), 2);
    assert_eq!(got[0].0, "JP");
    assert_eq!(got[1].0, "BR");
}

#[test]
fn available_countries_list_uses_narrow_aliases() {
    let page = obj(vec![(
        "availableCountries",
        JsonValue::Arr(vec![obj(vec![("countryCode", jstr("IT")), ("countryName", jstr("Italy"))])]),
    )]);
    let got = extract_countries(&page);
    assert_eq!(got, vec![(String::from("IT"), Some(String::from("Italy")))]);
}
