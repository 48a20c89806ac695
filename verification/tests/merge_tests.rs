use wm_countries::merge::merge_candidates;

fn cands(list: Vec<(&str, Option<&str>)>) -> Vec<(String, Option<String>)> {
    list.into_iter().map(|(c, n)| (String::from(c), n.map(String::from))).collect()
}

#[test]
fn merge_is_idempotent_on_doubled_input() {
    let l = cands(vec![
        ("US", None),
        ("CA", Some("Canada")),
        ("US", Some("United States")),
        ("DE", None),
    ]);
    let mut doubled = l.clone();
    doubled.extend(l.clone());
    assert_eq!(merge_candidates(&l), merge_candidates(&doubled));
}

#[test]
fn merge_of_merge_is_stable() {
    let l = cands(vec![("B", None), ("A", Some("Alpha")), ("B", Some("Beta"))]);
    let once = merge_candidates(&l);
    let twice = merge_candidates(&once);
    assert_eq!(once, twice);
}

#[test]
fn first_non_null_name_wins_null_first() {
    let l = cands(vec![("US", None), ("US", Some("United States"))]);
    assert_eq!(merge_candidates(&l), cands(vec![("US", Some("United States"))]));
}

#[test]
fn first_non_null_name_wins_null_second() {
    let l = cands(vec![("US", Some("United States")), ("US", None)]);
    assert_eq!(merge_candidates(&l), cands(vec![("US", Some("United States"))]));
}

#[test]
fn later_non_null_name_never_overrides() {
    let l = cands(vec![("US", Some("United States")), ("US", Some("USA"))]);
    assert_eq!(merge_candidates(&l), cands(vec![("US", Some("United States"))]));
}

#[test]
fn output_sorted_ascending_by_code() {
    let l = cands(vec![("UA", None), ("CA", None), ("US", None), ("DE", None)]);
    let got = merge_candidates(&l);
    let codes: Vec<&str> = got.iter().map(|p| p.0.as_str()).collect();
    assert_eq!(codes, vec!["CA", "DE", "UA", "US"]);
}

#[test]
fn case_is_not_folded_and_lowercase_sorts_after_uppercase() {
    let l = cands(vec![("us", Some("lower")), ("US", Some("upper"))]);
    let got = merge_candidates(&l);
    assert_eq!(got, cands(vec![("US", Some("upper")), ("us", Some("lower"))]));
}

#[test]
fn empty_input_gives_empty_output() {
    let got = merge_candidates(&Vec::new());
    assert!(got.is_empty());
}
