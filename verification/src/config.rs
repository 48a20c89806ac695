//! Static configuration of the upstream client, and the interpretation
//! of its raw textual sources.

use vstd::prelude::*;
use vstd::string::*;
use crate::extract::opt_view;
use crate::text::{eq_ignore_ascii, parse_u32, parse_u32_of, parse_u64, parse_u64_of, str_eq, str_eq_ci};

verus! {

/// Immutable per-process settings, established once at startup.
#[derive(Debug, Clone)]
pub struct Settings {
    pub base_url: String,
    pub bearer_token: Option<String>,
    pub use_stub: bool,
    pub http_timeout_ms: u64,
    pub max_pages: u32,
    pub default_page_size: u32,
    /// On upstream failure, substitute the canned document instead of
    /// surfacing the failure.
    pub fail_open: bool,
}

/// How a boolean setting reads: `1` or a case-insensitive `true` switch
/// it on; absence means the default.
pub open spec fn flag_of(v: Option<Seq<char>>, default: bool) -> bool {
    match v {
        Some(s) => s == "1"@ || eq_ignore_ascii(s, "true"@),
        None => default,
    }
}

/// How a numeric setting reads: an unparsable or absent value means the
/// default.
pub open spec fn u64_conf(v: Option<Seq<char>>, default: u64) -> u64 {
    match v {
        Some(s) => match parse_u64_of(s) {
            Some(x) => x,
            None => default,
        },
        None => default,
    }
}

pub open spec fn u32_conf(v: Option<Seq<char>>, default: u32) -> u32 {
    match v {
        Some(s) => match parse_u32_of(s) {
            Some(x) => x,
            None => default,
        },
        None => default,
    }
}

pub open spec fn url_conf(v: Option<Seq<char>>) -> Seq<char> {
    match v {
        Some(s) => s,
        None => "https://partnerapi.worldmobilelabs.com"@,
    }
}

fn flag_from(v: &Option<String>, default: bool) -> (r: bool)
    ensures
        r == flag_of(opt_view(*v), default),
{
    match v {
        Some(s) => str_eq(s.as_str(), "1") || str_eq_ci(s.as_str(), "true"),
        None => default,
    }
}

fn u64_from(v: &Option<String>, default: u64) -> (r: u64)
    ensures
        r == u64_conf(opt_view(*v), default),
{
    match v {
        Some(s) => match parse_u64(s.as_str()) {
            Some(x) => x,
            None => default,
        },
        None => default,
    }
}

fn u32_from(v: &Option<String>, default: u32) -> (r: u32)
    ensures
        r == u32_conf(opt_view(*v), default),
{
    match v {
        Some(s) => match parse_u32(s.as_str()) {
            Some(x) => x,
            None => default,
        },
        None => default,
    }
}

impl Settings {
    /// Interprets the raw environment values, falling back to the
    /// defaults where one is absent or unreadable.
    pub fn from_raw(
        base_url: Option<String>,
        bearer_token: Option<String>,
        use_stub: Option<String>,
        http_timeout_ms: Option<String>,
        max_pages: Option<String>,
        default_page_size: Option<String>,
        fail_open: Option<String>,
    ) -> (r: Settings)
        ensures
            r.base_url@ == url_conf(opt_view(base_url)),
            r.bearer_token == bearer_token,
            r.use_stub == flag_of(opt_view(use_stub), false),
            r.http_timeout_ms == u64_conf(opt_view(http_timeout_ms), 15000),
            r.max_pages == u32_conf(opt_view(max_pages), 20),
            r.default_page_size == u32_conf(opt_view(default_page_size), 100),
            r.fail_open == flag_of(opt_view(fail_open), true),
    {
        let use_stub_v = flag_from(&use_stub, false);
        let timeout_v = u64_from(&http_timeout_ms, 15000);
        let max_pages_v = u32_from(&max_pages, 20);
        let page_size_v = u32_from(&default_page_size, 100);
        let fail_open_v = flag_from(&fail_open, true);
        let base = match base_url {
            Some(s) => s,
            None => String::from_str("https://partnerapi.worldmobilelabs.com"),
        };
        Settings {
            base_url: base,
            bearer_token,
            use_stub: use_stub_v,
            http_timeout_ms: timeout_v,
            max_pages: max_pages_v,
            default_page_size: page_size_v,
            fail_open: fail_open_v,
        }
    }
}

} // verus!
