//! Schema normalizer: best-effort extraction of `(code, name)` candidate
//! pairs from one raw page of unknown shape, driven by ordered alias
//! tables for the code, the name, the container arrays and the embedded
//! country lists.

use vstd::prelude::*;
use crate::json::{JsonValue, str_field, arr_field};
use crate::text::{trim_of, trimmed};

verus! {

/// View of one candidate pair.
pub open spec fn opt_view(o: Option<String>) -> Option<Seq<char>> {
    match o {
        Some(s) => Some(s@),
        None => None,
    }
}

/// View of a vector of candidate pairs.
pub open spec fn cand_view(s: Seq<(String, Option<String>)>) -> Seq<
    (Seq<char>, Option<Seq<char>>),
> {
    s.map(|i: int, p: (String, Option<String>)| (p.0@, opt_view(p.1)))
}

pub proof fn lemma_cand_view_push(s: Seq<(String, Option<String>)>, p: (String, Option<String>))
    ensures
        cand_view(s.push(p)) == cand_view(s).push((p.0@, opt_view(p.1))),
{
    assert(cand_view(s.push(p)) =~= cand_view(s).push((p.0@, opt_view(p.1))));
}

/// First code alias present as a string on an entry, in fixed priority
/// order.
pub open spec fn entry_code(v: JsonValue) -> Option<Seq<char>> {
    if str_field(v, "country_code"@) is Some {
        str_field(v, "country_code"@)
    } else if str_field(v, "countryCode"@) is Some {
        str_field(v, "countryCode"@)
    } else if str_field(v, "countryCodeISO"@) is Some {
        str_field(v, "countryCodeISO"@)
    } else if str_field(v, "isoCountry"@) is Some {
        str_field(v, "isoCountry"@)
    } else if str_field(v, "country"@) is Some {
        str_field(v, "country"@)
    } else {
        str_field(v, "code"@)
    }
}

/// First name alias present as a string on an entry.
pub open spec fn entry_name(v: JsonValue) -> Option<Seq<char>> {
    if str_field(v, "country_name"@) is Some {
        str_field(v, "country_name"@)
    } else if str_field(v, "countryName"@) is Some {
        str_field(v, "countryName"@)
    } else if str_field(v, "name"@) is Some {
        str_field(v, "name"@)
    } else if str_field(v, "countryLabel"@) is Some {
        str_field(v, "countryLabel"@)
    } else {
        str_field(v, "country"@)
    }
}

/// The narrower code aliases used inside an embedded country list.
pub open spec fn sub_code(v: JsonValue) -> Option<Seq<char>> {
    if str_field(v, "code"@) is Some {
        str_field(v, "code"@)
    } else if str_field(v, "country_code"@) is Some {
        str_field(v, "country_code"@)
    } else if str_field(v, "countryCode"@) is Some {
        str_field(v, "countryCode"@)
    } else {
        str_field(v, "country"@)
    }
}

/// The narrower name aliases used inside an embedded country list.
pub open spec fn sub_name(v: JsonValue) -> Option<Seq<char>> {
    if str_field(v, "name"@) is Some {
        str_field(v, "name"@)
    } else if str_field(v, "country_name"@) is Some {
        str_field(v, "country_name"@)
    } else {
        str_field(v, "countryName"@)
    }
}

pub open spec fn trim_opt(name: Option<Seq<char>>) -> Option<Seq<char>> {
    match name {
        Some(n) => Some(trim_of(n)),
        None => None,
    }
}

/// The candidate a `(code, name)` lookup yields: one pair when a code was
/// found and is non-empty after trimming, none otherwise.
pub open spec fn pair_for(code: Option<Seq<char>>, name: Option<Seq<char>>) -> Seq<
    (Seq<char>, Option<Seq<char>>),
> {
    match code {
        Some(c) => if trim_of(c).len() > 0 {
            seq![(trim_of(c), trim_opt(name))]
        } else {
            Seq::empty()
        },
        None => Seq::empty(),
    }
}

/// Candidates of one element of an embedded country list.
pub open spec fn sub_pairs(v: JsonValue) -> Seq<(Seq<char>, Option<Seq<char>>)> {
    pair_for(sub_code(v), sub_name(v))
}

/// Candidates of the first `i` elements of an embedded country list.
pub open spec fn subs_upto(elems: Seq<JsonValue>, i: int) -> Seq<(Seq<char>, Option<Seq<char>>)>
    decreases i,
{
    if i <= 0 {
        Seq::empty()
    } else {
        subs_upto(elems, i - 1) + sub_pairs(elems[i - 1])
    }
}

/// Candidates of the embedded country list under `key`, if any.
pub open spec fn nested_for_key(v: JsonValue, key: Seq<char>) -> Seq<
    (Seq<char>, Option<Seq<char>>),
> {
    match arr_field(v, key) {
        Some(a) => subs_upto(a, a.len() as int),
        None => Seq::empty(),
    }
}

/// All candidates contributed by one entry: its own pair first, then its
/// embedded country lists in fixed key order.
pub open spec fn entry_pairs(v: JsonValue) -> Seq<(Seq<char>, Option<Seq<char>>)> {
    pair_for(entry_code(v), entry_name(v)) + nested_for_key(v, "countries"@) + nested_for_key(
        v,
        "supportedCountries"@,
    ) + nested_for_key(v, "availableCountries"@)
}

/// Candidates of the first `i` entries of a container array.
pub open spec fn entries_upto(elems: Seq<JsonValue>, i: int) -> Seq<(Seq<char>, Option<Seq<char>>)>
    decreases i,
{
    if i <= 0 {
        Seq::empty()
    } else {
        entries_upto(elems, i - 1) + entry_pairs(elems[i - 1])
    }
}

/// Candidates of the container array under `key`, if any.
pub open spec fn container_for_key(page: JsonValue, key: Seq<char>) -> Seq<
    (Seq<char>, Option<Seq<char>>),
> {
    match arr_field(page, key) {
        Some(a) => entries_upto(a, a.len() as int),
        None => Seq::empty(),
    }
}

/// All candidates extracted from one page. An array page is a sequence of
/// entries; an object page contributes its container arrays in fixed key
/// order and is finally tried as a single entry itself.
pub open spec fn page_pairs(page: JsonValue) -> Seq<(Seq<char>, Option<Seq<char>>)> {
    match page {
        JsonValue::Arr(items) => entries_upto(items@, items@.len() as int),
        JsonValue::Obj(entries) => container_for_key(page, "data"@) + container_for_key(
            page,
            "packages"@,
        ) + container_for_key(page, "items"@) + container_for_key(page, "results"@) + entry_pairs(
            page,
        ),
        _ => Seq::empty(),
    }
}

/// Every candidate's code is non-empty and already trimmed.
pub open spec fn good_cands(s: Seq<(Seq<char>, Option<Seq<char>>)>) -> bool {
    forall|i: int|
        0 <= i < s.len() ==> (#[trigger] s[i]).0.len() > 0 && trim_of(s[i].0) == s[i].0
}

pub proof fn lemma_good_cands_concat(a: Seq<(Seq<char>, Option<Seq<char>>)>, b: Seq<(Seq<char>, Option<Seq<char>>)>)
    requires
        good_cands(a),
        good_cands(b),
    ensures
        good_cands(a + b),
{
    assert forall|i: int| 0 <= i < (a + b).len() implies (#[trigger] (a + b)[i]).0.len() > 0
        && trim_of((a + b)[i].0) == (a + b)[i].0 by {
        if i < a.len() {
            assert((a + b)[i] == a[i]);
        } else {
            assert((a + b)[i] == b[i - a.len()]);
        }
    }
}

pub proof fn lemma_pair_for_good(code: Option<Seq<char>>, name: Option<Seq<char>>)
    ensures
        good_cands(pair_for(code, name)),
{
    if code is Some && trim_of(code->0).len() > 0 {
        crate::text::lemma_trim_of_trimmed(code->0);
    }
}

pub proof fn lemma_subs_upto_good(elems: Seq<JsonValue>, i: int)
    ensures
        good_cands(subs_upto(elems, i)),
    decreases i,
{
    if i > 0 {
        lemma_subs_upto_good(elems, i - 1);
        lemma_pair_for_good(sub_code(elems[i - 1]), sub_name(elems[i - 1]));
        lemma_good_cands_concat(subs_upto(elems, i - 1), sub_pairs(elems[i - 1]));
    }
}

pub proof fn lemma_entry_pairs_good(v: JsonValue)
    ensures
        good_cands(entry_pairs(v)),
{
    lemma_pair_for_good(entry_code(v), entry_name(v));
    let n1 = nested_for_key(v, "countries"@);
    let n2 = nested_for_key(v, "supportedCountries"@);
    let n3 = nested_for_key(v, "availableCountries"@);
    if arr_field(v, "countries"@) is Some {
        lemma_subs_upto_good(arr_field(v, "countries"@)->0, arr_field(v, "countries"@)->0.len() as int);
    }
    if arr_field(v, "supportedCountries"@) is Some {
        lemma_subs_upto_good(
            arr_field(v, "supportedCountries"@)->0,
            arr_field(v, "supportedCountries"@)->0.len() as int,
        );
    }
    if arr_field(v, "availableCountries"@) is Some {
        lemma_subs_upto_good(
            arr_field(v, "availableCountries"@)->0,
            arr_field(v, "availableCountries"@)->0.len() as int,
        );
    }
    lemma_good_cands_concat(pair_for(entry_code(v), entry_name(v)), n1);
    lemma_good_cands_concat(pair_for(entry_code(v), entry_name(v)) + n1, n2);
    lemma_good_cands_concat(pair_for(entry_code(v), entry_name(v)) + n1 + n2, n3);
}

pub proof fn lemma_entries_upto_good(elems: Seq<JsonValue>, i: int)
    ensures
        good_cands(entries_upto(elems, i)),
    decreases i,
{
    if i > 0 {
        lemma_entries_upto_good(elems, i - 1);
        lemma_entry_pairs_good(elems[i - 1]);
        lemma_good_cands_concat(entries_upto(elems, i - 1), entry_pairs(elems[i - 1]));
    }
}

/// Extraction only yields codes that are non-empty once trimmed, and
/// hands both code and name out already trimmed.
pub proof fn lemma_page_pairs_good(page: JsonValue)
    ensures
        good_cands(page_pairs(page)),
{
    match page {
        JsonValue::Arr(items) => {
            lemma_entries_upto_good(items@, items@.len() as int);
        },
        JsonValue::Obj(entries) => {
            let c1 = container_for_key(page, "data"@);
            let c2 = container_for_key(page, "packages"@);
            let c3 = container_for_key(page, "items"@);
            let c4 = container_for_key(page, "results"@);
            if arr_field(page, "data"@) is Some {
                lemma_entries_upto_good(arr_field(page, "data"@)->0, arr_field(page, "data"@)->0.len() as int);
            }
            if arr_field(page, "packages"@) is Some {
                lemma_entries_upto_good(
                    arr_field(page, "packages"@)->0,
                    arr_field(page, "packages"@)->0.len() as int,
                );
            }
            if arr_field(page, "items"@) is Some {
                lemma_entries_upto_good(
                    arr_field(page, "items"@)->0,
                    arr_field(page, "items"@)->0.len() as int,
                );
            }
            if arr_field(page, "results"@) is Some {
                lemma_entries_upto_good(
                    arr_field(page, "results"@)->0,
                    arr_field(page, "results"@)->0.len() as int,
                );
            }
            lemma_entry_pairs_good(page);
            lemma_good_cands_concat(c1, c2);
            lemma_good_cands_concat(c1 + c2, c3);
            lemma_good_cands_concat(c1 + c2 + c3, c4);
            lemma_good_cands_concat(c1 + c2 + c3 + c4, entry_pairs(page));
        },
        _ => {},
    }
}

/// A candidate whose own alias lookup finds a code that trims to
/// something non-empty is recovered by extraction of an object page.
pub proof fn lemma_extraction_recovers(page: JsonValue)
    requires
        page is Obj,
        entry_code(page) is Some,
        trim_of(entry_code(page)->0).len() > 0,
    ensures
        exists|i: int|
            0 <= i < page_pairs(page).len() && #[trigger] page_pairs(page)[i] == (
                trim_of(entry_code(page)->0),
                trim_opt(entry_name(page)),
            ),
{
    let own = pair_for(entry_code(page), entry_name(page));
    let c1 = container_for_key(page, "data"@);
    let c2 = container_for_key(page, "packages"@);
    let c3 = container_for_key(page, "items"@);
    let c4 = container_for_key(page, "results"@);
    let k = (c1 + c2 + c3 + c4).len() as int;
    assert(entry_pairs(page)[0] == (trim_of(entry_code(page)->0), trim_opt(entry_name(page))));
    assert(page_pairs(page)[k] == entry_pairs(page)[0]);
}

fn code_alias(v: &JsonValue) -> (r: Option<String>)
    ensures
        opt_view(r) == entry_code(*v),
{
    if let Some(c) = v.get_str("country_code") {
        return Some(c);
    }
    if let Some(c) = v.get_str("countryCode") {
        return Some(c);
    }
    if let Some(c) = v.get_str("countryCodeISO") {
        return Some(c);
    }
    if let Some(c) = v.get_str("isoCountry") {
        return Some(c);
    }
    if let Some(c) = v.get_str("country") {
        return Some(c);
    }
    v.get_str("code")
}

fn name_alias(v: &JsonValue) -> (r: Option<String>)
    ensures
        opt_view(r) == entry_name(*v),
{
    if let Some(n) = v.get_str("country_name") {
        return Some(n);
    }
    if let Some(n) = v.get_str("countryName") {
        return Some(n);
    }
    if let Some(n) = v.get_str("name") {
        return Some(n);
    }
    if let Some(n) = v.get_str("countryLabel") {
        return Some(n);
    }
    v.get_str("country")
}

fn sub_code_alias(v: &JsonValue) -> (r: Option<String>)
    ensures
        opt_view(r) == sub_code(*v),
{
    if let Some(c) = v.get_str("code") {
        return Some(c);
    }
    if let Some(c) = v.get_str("country_code") {
        return Some(c);
    }
    if let Some(c) = v.get_str("countryCode") {
        return Some(c);
    }
    v.get_str("country")
}

fn sub_name_alias(v: &JsonValue) -> (r: Option<String>)
    ensures
        opt_view(r) == sub_name(*v),
{
    if let Some(n) = v.get_str("name") {
        return Some(n);
    }
    if let Some(n) = v.get_str("country_name") {
        return Some(n);
    }
    v.get_str("countryName")
}

/// Accepts a candidate only when a code was found and trims to something
/// non-empty; trims the name alongside.
fn push_pair(out: &mut Vec<(String, Option<String>)>, code: Option<String>, name: Option<String>)
    ensures
        cand_view(final(out)@) == cand_view(old(out)@) + pair_for(opt_view(code), opt_view(name)),
{
    match code {
        Some(c) => {
            let t = trimmed(c.as_str());
            if t.unicode_len() > 0 {
                let tn = match name {
                    Some(n) => Some(trimmed(n.as_str())),
                    None => None,
                };
                proof {
                    lemma_cand_view_push(out@, (t, tn));
                }
                let ghost before = out@;
                out.push((t, tn));
                proof {
                    assert(cand_view(final(out)@) =~= cand_view(before) + pair_for(
                        opt_view(Some(c)),
                        opt_view(name),
                    ));
                }
            } else {
                assert(cand_view(out@) =~= cand_view(out@) + pair_for(
                    opt_view(Some(c)),
                    opt_view(name),
                ));
            }
        },
        None => {
            assert(cand_view(out@) =~= cand_view(out@) + pair_for(opt_view(code), opt_view(name)));
        },
    }
}

/// Applies the embedded-list aliases to every element of one country
/// list.
fn push_sub_list(out: &mut Vec<(String, Option<String>)>, elems: &Vec<JsonValue>)
    ensures
        cand_view(final(out)@) == cand_view(old(out)@) + subs_upto(elems@, elems@.len() as int),
{
    let n = elems.len();
    let mut i: usize = 0;
    while i < n
        invariant
            n == elems@.len(),
            0 <= i <= n,
            cand_view(out@) == cand_view(old(out)@) + subs_upto(elems@, i as int),
        decreases n - i,
    {
        let code = sub_code_alias(&elems[i]);
        let name = sub_name_alias(&elems[i]);
        let ghost before = out@;
        push_pair(out, code, name);
        proof {
            assert(cand_view(out@) =~= cand_view(old(out)@) + subs_upto(elems@, i as int + 1));
        }
        i = i + 1;
    }
}

/// Entry-extraction on one keyed structure: the entry's own aliases, then
/// each embedded country list.
fn push_entry(out: &mut Vec<(String, Option<String>)>, v: &JsonValue)
    ensures
        cand_view(final(out)@) == cand_view(old(out)@) + entry_pairs(*v),
{
    let code = code_alias(v);
    let name = name_alias(v);
    push_pair(out, code, name);
    if let Some(arr) = v.get_arr("countries") {
        push_sub_list(out, arr);
    }
    if let Some(arr) = v.get_arr("supportedCountries") {
        push_sub_list(out, arr);
    }
    if let Some(arr) = v.get_arr("availableCountries") {
        push_sub_list(out, arr);
    }
    proof {
        assert(cand_view(out@) =~= cand_view(old(out)@) + entry_pairs(*v));
    }
}

/// Applies entry-extraction to every element of a container array.
fn push_entry_list(out: &mut Vec<(String, Option<String>)>, elems: &Vec<JsonValue>)
    ensures
        cand_view(final(out)@) == cand_view(old(out)@) + entries_upto(elems@, elems@.len() as int),
{
    let n = elems.len();
    let mut i: usize = 0;
    while i < n
        invariant
            n == elems@.len(),
            0 <= i <= n,
            cand_view(out@) == cand_view(old(out)@) + entries_upto(elems@, i as int),
        decreases n - i,
    {
        push_entry(out, &elems[i]);
        proof {
            assert(cand_view(out@) =~= cand_view(old(out)@) + entries_upto(elems@, i as int + 1));
        }
        i = i + 1;
    }
}

/// Extracts every `(code, name)` candidate a page of unknown shape
/// offers; never fails, unmatched shapes yield no records.
pub fn extract_countries(page: &JsonValue) -> (r: Vec<(String, Option<String>)>)
    ensures
        cand_view(r@) == page_pairs(*page),
        good_cands(cand_view(r@)),
{
    let mut out: Vec<(String, Option<String>)> = Vec::new();
    match page {
        JsonValue::Arr(items) => {
            push_entry_list(&mut out, items);
        },
        JsonValue::Obj(entries) => {
            if let Some(arr) = page.get_arr("data") {
                push_entry_list(&mut out, arr);
            }
            if let Some(arr) = page.get_arr("packages") {
                push_entry_list(&mut out, arr);
            }
            if let Some(arr) = page.get_arr("items") {
                push_entry_list(&mut out, arr);
            }
            if let Some(arr) = page.get_arr("results") {
                push_entry_list(&mut out, arr);
            }
            push_entry(&mut out, page);
        },
        _ => {},
    }
    proof {
        assert(cand_view(out@) =~= page_pairs(*page));
        lemma_page_pairs_good(*page);
    }
    out
}

proof fn lemma_subs_upto_prefix(elems: Seq<JsonValue>, i: int, j: int)
    requires
        0 <= i <= j,
    ensures
        subs_upto(elems, i).len() <= subs_upto(elems, j).len(),
        forall|t: int|
            0 <= t < subs_upto(elems, i).len() ==> #[trigger] subs_upto(elems, j)[t] == subs_upto(
                elems,
                i,
            )[t],
    decreases j - i,
{
    if i < j {
        lemma_subs_upto_prefix(elems, i, j - 1);
    }
}

proof fn lemma_entries_upto_prefix(elems: Seq<JsonValue>, i: int, j: int)
    requires
        0 <= i <= j,
    ensures
        entries_upto(elems, i).len() <= entries_upto(elems, j).len(),
        forall|t: int|
            0 <= t < entries_upto(elems, i).len() ==> #[trigger] entries_upto(elems, j)[t]
                == entries_upto(elems, i)[t],
    decreases j - i,
{
    if i < j {
        lemma_entries_upto_prefix(elems, i, j - 1);
    }
}

/// Every candidate contributed by one element of an entry array appears
/// in the array's flattened candidates.
proof fn lemma_entries_upto_contains(elems: Seq<JsonValue>, j: int, t: int, n: int)
    requires
        0 <= j < n <= elems.len(),
        0 <= t < entry_pairs(elems[j]).len(),
    ensures
        entries_upto(elems, j).len() + t < entries_upto(elems, n).len(),
        entries_upto(elems, n)[entries_upto(elems, j).len() + t] == entry_pairs(elems[j])[t],
{
    assert(entries_upto(elems, j + 1) == entries_upto(elems, j) + entry_pairs(elems[j]));
    lemma_entries_upto_prefix(elems, j + 1, n);
    assert(entries_upto(elems, n)[entries_upto(elems, j).len() as int + t] == entry_pairs(
        elems[j],
    )[t]);
}

/// Any candidate of the `j`-th element of an array page appears in the
/// page's extraction.
pub proof fn lemma_array_entry_pair_in_page(page: JsonValue, j: int, t: int)
    requires
        page is Arr,
        0 <= j < page->Arr_0@.len(),
        0 <= t < entry_pairs(page->Arr_0@[j]).len(),
    ensures
        exists|i: int|
            0 <= i < page_pairs(page).len() && #[trigger] page_pairs(page)[i] == entry_pairs(
                page->Arr_0@[j],
            )[t],
{
    let elems = page->Arr_0@;
    lemma_entries_upto_contains(elems, j, t, elems.len() as int);
    let w = entries_upto(elems, j).len() as int + t;
    assert(page_pairs(page)[w] == entry_pairs(elems[j])[t]);
}

/// Any candidate of the `j`-th element of a recognized container array
/// of an object page appears in the page's extraction.
pub proof fn lemma_container_entry_pair_in_page(page: JsonValue, key: Seq<char>, j: int, t: int)
    requires
        page is Obj,
        key == "data"@ || key == "packages"@ || key == "items"@ || key == "results"@,
        arr_field(page, key) is Some,
        0 <= j < arr_field(page, key)->0.len(),
        0 <= t < entry_pairs(arr_field(page, key)->0[j]).len(),
    ensures
        exists|i: int|
            0 <= i < page_pairs(page).len() && #[trigger] page_pairs(page)[i] == entry_pairs(
                arr_field(page, key)->0[j],
            )[t],
{
    let elems = arr_field(page, key)->0;
    lemma_entries_upto_contains(elems, j, t, elems.len() as int);
    let o = entries_upto(elems, j).len() as int + t;
    assert(container_for_key(page, key)[o] == entry_pairs(elems[j])[t]);
    let c1 = container_for_key(page, "data"@);
    let c2 = container_for_key(page, "packages"@);
    let c3 = container_for_key(page, "items"@);
    let c4 = container_for_key(page, "results"@);
    if key == "data"@ {
        assert(page_pairs(page)[o] == c1[o]);
    } else if key == "packages"@ {
        assert(page_pairs(page)[c1.len() as int + o] == c2[o]);
    } else if key == "items"@ {
        assert(page_pairs(page)[c1.len() as int + c2.len() as int + o] == c3[o]);
    } else {
        assert(page_pairs(page)[c1.len() as int + c2.len() as int + c3.len() as int + o] == c4[o]);
    }
}

/// A nested-list element whose narrow code alias holds a string that
/// trims to something non-empty is recovered among its entry's
/// candidates, with the trimmed narrow name beside it.
pub proof fn lemma_entry_recovers_nested(v: JsonValue, key: Seq<char>, j: int)
    requires
        key == "countries"@ || key == "supportedCountries"@ || key == "availableCountries"@,
        arr_field(v, key) is Some,
        0 <= j < arr_field(v, key)->0.len(),
        sub_code(arr_field(v, key)->0[j]) is Some,
        trim_of(sub_code(arr_field(v, key)->0[j])->0).len() > 0,
    ensures
        exists|i: int|
            0 <= i < entry_pairs(v).len() && #[trigger] entry_pairs(v)[i] == (
                trim_of(sub_code(arr_field(v, key)->0[j])->0),
                trim_opt(sub_name(arr_field(v, key)->0[j])),
            ),
{
    let elems = arr_field(v, key)->0;
    let pr = (trim_of(sub_code(elems[j])->0), trim_opt(sub_name(elems[j])));
    assert(sub_pairs(elems[j])[0] == pr);
    assert(subs_upto(elems, j + 1) == subs_upto(elems, j) + sub_pairs(elems[j]));
    lemma_subs_upto_prefix(elems, j + 1, elems.len() as int);
    let o = subs_upto(elems, j).len() as int;
    assert(nested_for_key(v, key)[o] == pr);
    let own = pair_for(entry_code(v), entry_name(v));
    let n1 = nested_for_key(v, "countries"@);
    let n2 = nested_for_key(v, "supportedCountries"@);
    let n3 = nested_for_key(v, "availableCountries"@);
    if key == "countries"@ {
        assert(entry_pairs(v)[own.len() as int + o] == n1[o]);
    } else if key == "supportedCountries"@ {
        assert(entry_pairs(v)[own.len() as int + n1.len() as int + o] == n2[o]);
    } else {
        assert(entry_pairs(v)[own.len() as int + n1.len() as int + n2.len() as int + o] == n3[o]);
    }
}

/// The `j`-th element of an array page whose code alias holds a string
/// that trims to something non-empty is recovered by extraction.
pub proof fn lemma_extraction_recovers_in_array(page: JsonValue, j: int)
    requires
        page is Arr,
        0 <= j < page->Arr_0@.len(),
        entry_code(page->Arr_0@[j]) is Some,
        trim_of(entry_code(page->Arr_0@[j])->0).len() > 0,
    ensures
        exists|i: int|
            0 <= i < page_pairs(page).len() && #[trigger] page_pairs(page)[i] == (
                trim_of(entry_code(page->Arr_0@[j])->0),
                trim_opt(entry_name(page->Arr_0@[j])),
            ),
{
    let v = page->Arr_0@[j];
    assert(entry_pairs(v)[0] == (trim_of(entry_code(v)->0), trim_opt(entry_name(v))));
    lemma_array_entry_pair_in_page(page, j, 0);
}

/// The `j`-th element of a recognized container array whose code alias
/// holds a string that trims to something non-empty is recovered by
/// extraction.
pub proof fn lemma_extraction_recovers_in_container(page: JsonValue, key: Seq<char>, j: int)
    requires
        page is Obj,
        key == "data"@ || key == "packages"@ || key == "items"@ || key == "results"@,
        arr_field(page, key) is Some,
        0 <= j < arr_field(page, key)->0.len(),
        entry_code(arr_field(page, key)->0[j]) is Some,
        trim_of(entry_code(arr_field(page, key)->0[j])->0).len() > 0,
    ensures
        exists|i: int|
            0 <= i < page_pairs(page).len() && #[trigger] page_pairs(page)[i] == (
                trim_of(entry_code(arr_field(page, key)->0[j])->0),
                trim_opt(entry_name(arr_field(page, key)->0[j])),
            ),
{
    let v = arr_field(page, key)->0[j];
    assert(entry_pairs(v)[0] == (trim_of(entry_code(v)->0), trim_opt(entry_name(v))));
    lemma_container_entry_pair_in_page(page, key, j, 0);
}

} // verus!

