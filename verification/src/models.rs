//! The records crossing the aggregation core's boundary.

use vstd::prelude::*;
use crate::extract::opt_view;

verus! {

/// One country record; `code` is the natural key.
#[derive(Debug, PartialEq)]
pub struct Country {
    pub code: String,
    pub name: Option<String>,
}

/// The tagged aggregation result: `source` is one of `worldmobile`,
/// `stub` and `fail_open_stub`.
#[derive(Debug, PartialEq)]
pub struct CountryListResponse {
    pub countries: Vec<Country>,
    pub count: usize,
    pub source: String,
}

/// The caller's filter and pagination parameters.
#[derive(Debug, Default, Clone)]
pub struct CountryQuery {
    pub country_code: Option<String>,
    pub scope: Option<String>,
    pub esim_id: Option<String>,
    pub fetch_all: Option<bool>,
    pub page_size: Option<u32>,
}

/// View of a country record as a candidate pair.
pub open spec fn country_view(c: Country) -> (Seq<char>, Option<Seq<char>>) {
    (c.code@, opt_view(c.name))
}

/// View of a country list as candidate pairs.
pub open spec fn countries_view(s: Seq<Country>) -> Seq<(Seq<char>, Option<Seq<char>>)> {
    s.map(|i: int, c: Country| country_view(c))
}

} // verus!
