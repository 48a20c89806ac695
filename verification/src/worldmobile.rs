//! Failure taxonomy, the canned fallback document, aggregation across
//! pages, and the fallback controller that chooses between real data,
//! stub data and a degraded fallback.

use vstd::prelude::*;
use vstd::string::*;
use crate::extract::{cand_view, extract_countries, page_pairs};
use crate::json::{JsonValue, arr_field, str_field};
use crate::merge::{is_merged, merge_candidates};
use crate::models::{Country, CountryListResponse, countries_view};

verus! {

/// Why an upstream aggregation failed.
#[derive(Debug)]
pub enum WmError {
    /// No bearer credential is configured; never substituted by
    /// fail-open.
    MissingToken,
    /// A transport-level failure, carrying its description.
    Http(String),
    /// The upstream rejected the request; status and raw body pass
    /// through verbatim.
    Upstream { status: u16, body: String },
    /// The upstream body was not structured data.
    BadJson,
}

/// The HTTP status and body a failure maps to.
pub open spec fn map_err_of(e: WmError) -> (u16, Seq<char>) {
    match e {
        WmError::MissingToken => (500, "WM_BEARER_TOKEN is not set"@),
        WmError::Http(m) => (502, "request error: "@ + m@),
        WmError::Upstream { status, body } => (status, body@),
        WmError::BadJson => (502, "invalid JSON from upstream"@),
    }
}

/// Translates a failure to the HTTP status and body surfaced to the
/// caller.
pub fn map_err(err: WmError) -> (r: (u16, String))
    ensures
        r.0 == map_err_of(err).0,
        r.1@ == map_err_of(err).1,
{
    match err {
        WmError::MissingToken => (500, String::from_str("WM_BEARER_TOKEN is not set")),
        WmError::Http(m) => {
            let mut s = String::from_str("request error: ");
            s.append(m.as_str());
            (502, s)
        },
        WmError::Upstream { status, body } => (status, body),
        WmError::BadJson => (502, String::from_str("invalid JSON from upstream")),
    }
}

/// All candidates of the first `i` pages, in page order.
pub open spec fn pages_pairs_upto(pages: Seq<JsonValue>, i: int) -> Seq<
    (Seq<char>, Option<Seq<char>>),
>
    decreases i,
{
    if i <= 0 {
        Seq::empty()
    } else {
        pages_pairs_upto(pages, i - 1) + page_pairs(pages[i - 1])
    }
}

fn to_countries(pairs: Vec<(String, Option<String>)>) -> (r: Vec<Country>)
    ensures
        countries_view(r@) == cand_view(pairs@),
{
    let ghost orig = pairs@;
    let mut rest = pairs;
    let mut out: Vec<Country> = Vec::new();
    while rest.len() > 0
        invariant
            cand_view(orig) == countries_view(out@) + cand_view(rest@),
        decreases rest.len(),
    {
        let ghost before_out = out@;
        let ghost before_rest = rest@;
        let p = rest.remove(0);
        out.push(Country { code: p.0, name: p.1 });
        proof {
            assert(countries_view(out@) =~= countries_view(before_out).push(
                (before_rest[0].0@, crate::extract::opt_view(before_rest[0].1)),
            ));
            assert(countries_view(out@) + cand_view(rest@) =~= countries_view(before_out)
                + cand_view(before_rest));
        }
    }
    proof {
        assert(cand_view(rest@) =~= Seq::<(Seq<char>, Option<Seq<char>>)>::empty());
        assert(countries_view(out@) =~= cand_view(orig));
    }
    out
}

/// Normalizes and merges across all returned pages: the merge is applied
/// once, over the union of every page's candidates.
pub fn aggregate_pages(pages: &Vec<JsonValue>) -> (r: Vec<Country>)
    ensures
        is_merged(pages_pairs_upto(pages@, pages@.len() as int), countries_view(r@)),
{
    let n = pages.len();
    let mut cands: Vec<(String, Option<String>)> = Vec::new();
    let mut i: usize = 0;
    while i < n
        invariant
            n == pages@.len(),
            0 <= i <= n,
            cand_view(cands@) == pages_pairs_upto(pages@, i as int),
        decreases n - i,
    {
        let ghost before = cands@;
        let mut one = extract_countries(&pages[i]);
        cands.append(&mut one);
        proof {
            assert(cand_view(cands@) =~= cand_view(before) + page_pairs(pages@[i as int]));
        }
        i = i + 1;
    }
    let merged = merge_candidates(&cands);
    to_countries(merged)
}

/// The canned fallback document: a fixed page in the upstream's usual
/// shape, holding three countries under `data`.
pub fn stub_document() -> (r: JsonValue)
    ensures
        r is Obj,
        r->Obj_0@.len() == 1,
        r->Obj_0@[0].0@ == "data"@,
        arr_field(r, "data"@) is Some,
        arr_field(r, "data"@)->0.len() == 3,
        forall|i: int|
            0 <= i < 3 ==> {
                let entry = #[trigger] arr_field(r, "data"@)->0[i];
                entry is Obj && entry->Obj_0@.len() == 2 && entry->Obj_0@[0].0@
                    == "country_code"@ && entry->Obj_0@[1].0@ == "country_name"@
            },
        str_field(arr_field(r, "data"@)->0[0], "country_code"@) == Some("US"@),
        str_field(arr_field(r, "data"@)->0[0], "country_name"@) == Some("United States"@),
        str_field(arr_field(r, "data"@)->0[1], "country_code"@) == Some("GB"@),
        str_field(arr_field(r, "data"@)->0[1], "country_name"@) == Some("United Kingdom"@),
        str_field(arr_field(r, "data"@)->0[2], "country_code"@) == Some("UA"@),
        str_field(arr_field(r, "data"@)->0[2], "country_name"@) == Some("Ukraine"@),
{
    let mut us: Vec<(String, JsonValue)> = Vec::new();
    us.push((String::from_str("country_code"), JsonValue::Str(String::from_str("US"))));
    us.push((
        String::from_str("country_name"),
        JsonValue::Str(String::from_str("United States")),
    ));
    let mut gb: Vec<(String, JsonValue)> = Vec::new();
    gb.push((String::from_str("country_code"), JsonValue::Str(String::from_str("GB"))));
    gb.push((
        String::from_str("country_name"),
        JsonValue::Str(String::from_str("United Kingdom")),
    ));
    let mut ua: Vec<(String, JsonValue)> = Vec::new();
    ua.push((String::from_str("country_code"), JsonValue::Str(String::from_str("UA"))));
    ua.push((String::from_str("country_name"), JsonValue::Str(String::from_str("Ukraine"))));
    let mut data: Vec<JsonValue> = Vec::new();
    data.push(JsonValue::Obj(us));
    data.push(JsonValue::Obj(gb));
    data.push(JsonValue::Obj(ua));
    let mut root: Vec<(String, JsonValue)> = Vec::new();
    root.push((String::from_str("data"), JsonValue::Arr(data)));
    let r = JsonValue::Obj(root);
    proof {
        reveal_with_fuel(crate::json::lookup_from, 3);
        reveal_strlit("country_code");
        reveal_strlit("country_name");
        assert("country_code"@[8] != "country_name"@[8]);
        assert("country_code"@ != "country_name"@);
        assert(crate::json::lookup_from(root@, "data"@, 0) == Some(root@[0].1));
        let data_v = arr_field(r, "data"@)->0;
        assert(data_v[0] == root@[0].1->Arr_0@[0]);
        assert(data_v[1] == root@[0].1->Arr_0@[1]);
        assert(data_v[2] == root@[0].1->Arr_0@[2]);
        assert(crate::json::lookup_from(data_v[0]->Obj_0@, "country_code"@, 0) == Some(
            data_v[0]->Obj_0@[0].1,
        ));
        assert(crate::json::lookup_from(data_v[0]->Obj_0@, "country_name"@, 0) == Some(
            data_v[0]->Obj_0@[1].1,
        ));
        assert(crate::json::lookup_from(data_v[1]->Obj_0@, "country_code"@, 0) == Some(
            data_v[1]->Obj_0@[0].1,
        ));
        assert(crate::json::lookup_from(data_v[1]->Obj_0@, "country_name"@, 0) == Some(
            data_v[1]->Obj_0@[1].1,
        ));
        assert(crate::json::lookup_from(data_v[2]->Obj_0@, "country_code"@, 0) == Some(
            data_v[2]->Obj_0@[0].1,
        ));
        assert(crate::json::lookup_from(data_v[2]->Obj_0@, "country_name"@, 0) == Some(
            data_v[2]->Obj_0@[1].1,
        ));
    }
    r
}

/// The fallback controller: serves the aggregation of the fetched pages,
/// or substitutes the canned document on failure when fail-open is
/// configured, or surfaces the translated failure. A missing credential
/// is a configuration defect: it is surfaced even under fail-open.
pub fn resolve(
    use_stub: bool,
    fail_open: bool,
    outcome: Result<Vec<JsonValue>, WmError>,
    stub: &JsonValue,
) -> (r: Result<CountryListResponse, (u16, String)>)
    ensures
        match outcome {
            Ok(pages) => r is Ok && is_merged(
                pages_pairs_upto(pages@, pages@.len() as int),
                countries_view(r->Ok_0.countries@),
            ) && r->Ok_0.count == r->Ok_0.countries@.len() && r->Ok_0.source@ == (if use_stub {
                "stub"@
            } else {
                "worldmobile"@
            }),
            Err(e) => if fail_open && !(e is MissingToken) {
                r is Ok && is_merged(page_pairs(*stub), countries_view(r->Ok_0.countries@))
                    && r->Ok_0.count == r->Ok_0.countries@.len() && r->Ok_0.source@ == (
                if use_stub {
                    "stub"@
                } else {
                    "fail_open_stub"@
                })
            } else {
                r is Err && r->Err_0.0 == map_err_of(e).0 && r->Err_0.1@ == map_err_of(e).1
            },
        },
{
    match outcome {
        Ok(pages) => {
            let countries = aggregate_pages(&pages);
            let count = countries.len();
            let source = if use_stub {
                String::from_str("stub")
            } else {
                String::from_str("worldmobile")
            };
            Ok(CountryListResponse { countries, count, source })
        },
        Err(e) => {
            let substitutable = !matches!(e, WmError::MissingToken);
            if fail_open && substitutable {
                let cands = extract_countries(stub);
                let merged = merge_candidates(&cands);
                let countries = to_countries(merged);
                let count = countries.len();
                let source = if use_stub {
                    String::from_str("stub")
                } else {
                    String::from_str("fail_open_stub")
                };
                Ok(CountryListResponse { countries, count, source })
            } else {
                Err(map_err(e))
            }
        },
    }
}

} // verus!
