//! Pagination driver: continuation signals derived from one page, the
//! request-parameter map, and the traversal over a sequence of upstream
//! outcomes.

use vstd::prelude::*;
use vstd::string::*;
use crate::json::{JsonValue, field_of, str_field, uint_field};
use crate::text::{
    char_idx, dec_str, find_at, find_char, find_str, lemma_char_idx_props, lemma_find_at_props,
    parse_u32, parse_u32_of, str_eq, u32_string,
};
use crate::worldmobile::WmError;

verus! {

/// How one page says the traversal goes on: not at all, by an opaque
/// token, or by a page number.
pub enum ContinuationSignal {
    Finished,
    ContinuationToken(String),
    NextPageNumber(u32),
}

pub open spec fn nonempty_str(o: Option<Seq<char>>) -> bool {
    o is Some && o->0.len() > 0
}

/// The continuation token of a page: the first of the known token fields
/// holding a non-empty string, one of them nested under the metadata
/// block.
pub open spec fn spec_next_token(page: JsonValue) -> Option<Seq<char>> {
    if nonempty_str(str_field(page, "next"@)) {
        str_field(page, "next"@)
    } else if nonempty_str(str_field(page, "nextToken"@)) {
        str_field(page, "nextToken"@)
    } else if nonempty_str(str_field(page, "next_token"@)) {
        str_field(page, "next_token"@)
    } else if nonempty_str(str_field(page, "nextPageToken"@)) {
        str_field(page, "nextPageToken"@)
    } else {
        match field_of(page, "meta"@) {
            Some(m) => if nonempty_str(str_field(m, "next_token"@)) {
                str_field(m, "next_token"@)
            } else {
                None
            },
            None => None,
        }
    }
}

pub open spec fn trunc32(v: u64) -> u32 {
    (v % 0x1_0000_0000) as u32
}

/// The page advance the metadata counters ask for: `page + 1` while the
/// current page index is below the total.
pub open spec fn spec_meta_next_page(page: JsonValue, current: u32) -> Option<u32> {
    match field_of(page, "meta"@) {
        Some(m) => {
            let total = trunc32(
                match uint_field(m, "total_pages"@) {
                    Some(v) => v,
                    None => 0,
                },
            );
            let p = trunc32(
                match uint_field(m, "page"@) {
                    Some(v) => v,
                    None => current as u64,
                },
            );
            if total > 0 && p < total {
                Some((p + 1) as u32)
            } else {
                None
            }
        },
        None => None,
    }
}

/// The page number embedded in the next-link URL's query string.
pub open spec fn spec_link_page(page: JsonValue) -> Option<u32> {
    match field_of(page, "links"@) {
        Some(l) => match str_field(l, "next"@) {
            Some(url) => match find_at(url, "page="@, 0) {
                Some(idx) => {
                    let lo = idx + "page="@.len();
                    let hi = char_idx(url, '&', lo);
                    parse_u32_of(url.subrange(lo, hi))
                },
                None => None,
            },
            None => None,
        },
        None => None,
    }
}

/// The next page number a page asks for: metadata counters first, then a
/// plain `next_page` field, then the next-link URL.
pub open spec fn spec_next_page(page: JsonValue, current: u32) -> Option<u32> {
    if spec_meta_next_page(page, current) is Some {
        spec_meta_next_page(page, current)
    } else if uint_field(page, "next_page"@) is Some {
        Some(trunc32(uint_field(page, "next_page"@)->0))
    } else {
        spec_link_page(page)
    }
}

/// Decides `spec_next_token`.
pub fn next_token(page: &JsonValue) -> (r: Option<String>)
    ensures
        match r {
            Some(t) => spec_next_token(*page) == Some(t@),
            None => spec_next_token(*page) is None,
        },
{
    if let Some(s) = page.get_str("next") {
        if s.unicode_len() > 0 {
            return Some(s);
        }
    }
    if let Some(s) = page.get_str("nextToken") {
        if s.unicode_len() > 0 {
            return Some(s);
        }
    }
    if let Some(s) = page.get_str("next_token") {
        if s.unicode_len() > 0 {
            return Some(s);
        }
    }
    if let Some(s) = page.get_str("nextPageToken") {
        if s.unicode_len() > 0 {
            return Some(s);
        }
    }
    if let Some(m) = page.get("meta") {
        if let Some(s) = m.get_str("next_token") {
            if s.unicode_len() > 0 {
                return Some(s);
            }
        }
    }
    None
}

/// Decides `spec_next_page`.
pub fn next_page_number(page: &JsonValue, current_page: u32) -> (r: Option<u32>)
    ensures
        r == spec_next_page(*page, current_page),
{
    if let Some(m) = page.get("meta") {
        let total64: u64 = match m.get_u64("total_pages") {
            Some(v) => v,
            None => 0,
        };
        let total: u32 = (total64 % 0x1_0000_0000) as u32;
        let p64: u64 = match m.get_u64("page") {
            Some(v) => v,
            None => current_page as u64,
        };
        let p: u32 = (p64 % 0x1_0000_0000) as u32;
        if total > 0 && p < total {
            return Some(p + 1);
        }
    }
    if let Some(np) = page.get_u64("next_page") {
        return Some((np % 0x1_0000_0000) as u32);
    }
    if let Some(l) = page.get("links") {
        if let Some(url) = l.get_str("next") {
            if let Some(k) = find_str(url.as_str(), "page=") {
                proof {
                    lemma_find_at_props(url@, "page="@, 0, k as int);
                }
                let n = url.as_str().unicode_len();
                let plen = "page=".unicode_len();
                assert(k + plen <= n);
                let lo = k + plen;
                let hi = find_char(url.as_str(), '&', lo);
                proof {
                    lemma_char_idx_props(url@, '&', lo as int);
                }
                let seg = url.as_str().substring_char(lo, hi);
                return parse_u32(seg);
            }
        }
    }
    None
}

/// The continuation signal of one page. A token takes priority over
/// page counters: when both are present the token is used.
pub fn continuation_of(page: &JsonValue, current_page: u32) -> (r: ContinuationSignal)
    ensures
        match r {
            ContinuationSignal::ContinuationToken(t) => spec_next_token(*page) == Some(t@),
            ContinuationSignal::NextPageNumber(n) => spec_next_token(*page) is None
                && spec_next_page(*page, current_page) == Some(n),
            ContinuationSignal::Finished => spec_next_token(*page) is None && spec_next_page(
                *page,
                current_page,
            ) is None,
        },
{
    if let Some(t) = next_token(page) {
        return ContinuationSignal::ContinuationToken(t);
    }
    if let Some(np) = next_page_number(page, current_page) {
        return ContinuationSignal::NextPageNumber(np);
    }
    ContinuationSignal::Finished
}

/// A request-parameter map: immutable per request, copied and extended
/// by the driver as it advances.
pub struct ParamList {
    pub items: Vec<(String, String)>,
}

impl View for ParamList {
    type V = Seq<(Seq<char>, Seq<char>)>;

    open spec fn view(&self) -> Seq<(Seq<char>, Seq<char>)> {
        self.items@.map(|i: int, p: (String, String)| (p.0@, p.1@))
    }
}

/// First binding of `k` at or after `i`.
pub open spec fn plookup_from(s: Seq<(Seq<char>, Seq<char>)>, k: Seq<char>, i: int) -> Option<
    Seq<char>,
>
    decreases s.len() - i,
{
    if i < 0 || i >= s.len() {
        None
    } else if s[i].0 == k {
        Some(s[i].1)
    } else {
        plookup_from(s, k, i + 1)
    }
}

/// The value a parameter map binds `k` to.
pub open spec fn plookup(s: Seq<(Seq<char>, Seq<char>)>, k: Seq<char>) -> Option<Seq<char>> {
    plookup_from(s, k, 0)
}

/// Position of the first binding of `k`, or the length.
pub open spec fn pfind_from(s: Seq<(Seq<char>, Seq<char>)>, k: Seq<char>, i: int) -> int
    decreases s.len() - i,
{
    if i < 0 || i >= s.len() {
        s.len() as int
    } else if s[i].0 == k {
        i
    } else {
        pfind_from(s, k, i + 1)
    }
}

/// The map with `k` bound to `v`: the first binding replaced, or a new
/// one appended.
pub open spec fn sset(s: Seq<(Seq<char>, Seq<char>)>, k: Seq<char>, v: Seq<char>) -> Seq<
    (Seq<char>, Seq<char>),
> {
    let i = pfind_from(s, k, 0);
    if i < s.len() {
        s.update(i, (k, v))
    } else {
        s.push((k, v))
    }
}

impl ParamList {
    pub fn empty() -> (r: ParamList)
        ensures
            r@ == Seq::<(Seq<char>, Seq<char>)>::empty(),
    {
        let r = ParamList { items: Vec::new() };
        proof {
            assert(r@ =~= Seq::<(Seq<char>, Seq<char>)>::empty());
        }
        r
    }

    /// The value under `key`, if bound.
    pub fn get<'a>(&'a self, key: &str) -> (r: Option<&'a String>)
        ensures
            match r {
                Some(v) => plookup(self@, key@) == Some(v@),
                None => plookup(self@, key@) is None,
            },
    {
        let n = self.items.len();
        let mut i: usize = 0;
        while i < n
            invariant
                n == self.items@.len(),
                0 <= i <= n,
                plookup(self@, key@) == plookup_from(self@, key@, i as int),
                self@.len() == n,
                forall|j: int|
                    0 <= j < n ==> (#[trigger] self@[j]) == (self.items@[j].0@, self.items@[j].1@),
            decreases n - i,
        {
            if str_eq(self.items[i].0.as_str(), key) {
                return Some(&self.items[i].1);
            }
            i = i + 1;
        }
        None
    }

    /// Binds `key` to `value`, replacing an existing binding.
    pub fn set(&mut self, key: &str, value: String)
        ensures
            final(self)@ == sset(old(self)@, key@, value@),
    {
        let n = self.items.len();
        let mut i: usize = 0;
        while i < n
            invariant
                self@ == old(self)@,
                self.items@ == old(self).items@,
                n == self.items@.len(),
                0 <= i <= n,
                pfind_from(self@, key@, 0) == pfind_from(self@, key@, i as int),
                self@.len() == n,
                forall|j: int|
                    0 <= j < n ==> (#[trigger] self@[j]) == (self.items@[j].0@, self.items@[j].1@),
            decreases n - i,
        {
            if str_eq(self.items[i].0.as_str(), key) {
                assert(pfind_from(self@, key@, 0) == i as int);
                let ghost before = self@;
                let kept = self.items.remove(i);
                self.items.insert(i, (kept.0, value));
                proof {
                    assert(self@ =~= before.update(i as int, (key@, value@)));
                }
                return ;
            }
            i = i + 1;
        }
        assert(pfind_from(self@, key@, 0) == self@.len());
        let ghost before = self@;
        let owned_key = key_to_string(key);
        self.items.push((owned_key, value));
        proof {
            assert(self@ =~= before.push((key@, value@)));
        }
    }

    /// An identical copy.
    pub fn duplicate(&self) -> (r: ParamList)
        ensures
            r@ == self@,
    {
        let n = self.items.len();
        let mut items: Vec<(String, String)> = Vec::new();
        let mut i: usize = 0;
        while i < n
            invariant
                n == self.items@.len(),
                0 <= i <= n,
                items@.len() == i,
                forall|j: int|
                    0 <= j < i ==> (#[trigger] items@[j]) == self.items@[j],
            decreases n - i,
        {
            items.push((self.items[i].0.clone(), self.items[i].1.clone()));
            i = i + 1;
        }
        let r = ParamList { items };
        proof {
            assert(r@ =~= self@);
        }
        r
    }
}

fn key_to_string(key: &str) -> (r: String)
    ensures
        r@ == key@,
{
    String::from_str(key)
}

/// Views of a sequence of parameter maps.
pub open spec fn reqviews(s: Seq<ParamList>) -> Seq<Seq<(Seq<char>, Seq<char>)>> {
    s.map(|i: int, p: ParamList| p@)
}

/// One traversal: the parameters of each call made and each page
/// received, in order.
pub struct Traversal {
    pub requests: Vec<ParamList>,
    pub pages: Vec<JsonValue>,
}

/// The parameters seeding a multi-page traversal: an initial page
/// indicator and a page-size hint.
pub open spec fn seeded(base: Seq<(Seq<char>, Seq<char>)>, ps: u32) -> Seq<
    (Seq<char>, Seq<char>),
> {
    sset(sset(base, "page"@, dec_str(1)), "page_size"@, dec_str(ps as nat))
}

/// The traversal the continuation rules dictate, starting at the `i`-th
/// outcome with the given parameters and page counter and making at most
/// `fuel` calls: the requests issued and the pages kept. A failure
/// aborts and discards every page fetched so far.
pub open spec fn drive_from(
    responses: Seq<Result<JsonValue, WmError>>,
    i: int,
    params: Seq<(Seq<char>, Seq<char>)>,
    page: u32,
    fuel: int,
) -> Result<(Seq<Seq<(Seq<char>, Seq<char>)>>, Seq<JsonValue>), WmError>
    decreases fuel,
{
    if fuel <= 0 {
        Ok((Seq::empty(), Seq::empty()))
    } else {
        match responses[i] {
            Err(e) => Err(e),
            Ok(doc) => match spec_next_token(doc) {
                Some(t) => match drive_from(responses, i + 1, sset(params, "next"@, t), page, fuel - 1) {
                    Ok(rest) => Ok((seq![params] + rest.0, seq![doc] + rest.1)),
                    Err(e) => Err(e),
                },
                None => match spec_next_page(doc, page) {
                    Some(np) => match drive_from(
                        responses,
                        i + 1,
                        sset(params, "page"@, dec_str(np as nat)),
                        np,
                        fuel - 1,
                    ) {
                        Ok(rest) => Ok((seq![params] + rest.0, seq![doc] + rest.1)),
                        Err(e) => Err(e),
                    },
                    None => Ok((seq![params], seq![doc])),
                },
            },
        }
    }
}

/// With every consulted outcome a success, the traversal raises no
/// error: it stops at a page without continuation signal or silently at
/// the cap, with one request per page kept.
pub proof fn lemma_drive_ok(
    responses: Seq<Result<JsonValue, WmError>>,
    i: int,
    params: Seq<(Seq<char>, Seq<char>)>,
    page: u32,
    fuel: int,
)
    requires
        0 <= i,
        0 <= fuel,
        i + fuel <= responses.len(),
        forall|j: int| i <= j < i + fuel ==> (#[trigger] responses[j]) is Ok,
    ensures
        drive_from(responses, i, params, page, fuel) is Ok,
        drive_from(responses, i, params, page, fuel)->Ok_0.0.len() == drive_from(
            responses,
            i,
            params,
            page,
            fuel,
        )->Ok_0.1.len(),
        drive_from(responses, i, params, page, fuel)->Ok_0.1.len() <= fuel,
    decreases fuel,
{
    if fuel > 0 {
        assert(responses[i] is Ok);
        let doc = responses[i]->Ok_0;
        match spec_next_token(doc) {
            Some(t) => {
                lemma_drive_ok(responses, i + 1, sset(params, "next"@, t), page, fuel - 1);
            },
            None => {
                match spec_next_page(doc, page) {
                    Some(np) => {
                        lemma_drive_ok(
                            responses,
                            i + 1,
                            sset(params, "page"@, dec_str(np as nat)),
                            np,
                            fuel - 1,
                        );
                    },
                    None => {},
                }
            },
        }
    }
}

/// The first request of a successful traversal carries the parameters it
/// began with.
pub proof fn lemma_drive_first_req(
    responses: Seq<Result<JsonValue, WmError>>,
    i: int,
    params: Seq<(Seq<char>, Seq<char>)>,
    page: u32,
    fuel: int,
)
    requires
        drive_from(responses, i, params, page, fuel) is Ok,
        drive_from(responses, i, params, page, fuel)->Ok_0.0.len() >= 1,
    ensures
        drive_from(responses, i, params, page, fuel)->Ok_0.0[0] == params,
{
}

/// When a page carries a continuation token, the next call carries that
/// token — even when page counters are present on the same page.
pub proof fn lemma_token_priority(
    responses: Seq<Result<JsonValue, WmError>>,
    i: int,
    params: Seq<(Seq<char>, Seq<char>)>,
    page: u32,
    fuel: int,
)
    requires
        0 <= i,
        responses[i] is Ok,
        spec_next_token(responses[i]->Ok_0) is Some,
        drive_from(responses, i, params, page, fuel) is Ok,
        drive_from(responses, i, params, page, fuel)->Ok_0.0.len() >= 2,
    ensures
        drive_from(responses, i, params, page, fuel)->Ok_0.0[1] == sset(
            params,
            "next"@,
            spec_next_token(responses[i]->Ok_0)->0,
        ),
{
    let t = spec_next_token(responses[i]->Ok_0)->0;
    assert(fuel > 0);
    let inner = drive_from(responses, i + 1, sset(params, "next"@, t), page, fuel - 1);
    assert(inner is Ok && inner->Ok_0.0.len() >= 1);
    lemma_drive_first_req(responses, i + 1, sset(params, "next"@, t), page, fuel - 1);
}

/// Repeatedly fetches pages, carrying each page's continuation signal
/// into the next call's parameters, until no signal remains or the page
/// cap is reached. `responses` scripts what each successive upstream
/// call returned. With `fetch_all` false, or in stub mode, exactly one
/// call is made, whatever signals the response offers.
pub fn fetch_all_pages(
    responses: Vec<Result<JsonValue, WmError>>,
    base_params: &ParamList,
    fetch_all: bool,
    use_stub: bool,
    page_size: Option<u32>,
    default_page_size: u32,
    max_pages: u32,
) -> (r: Result<Traversal, WmError>)
    requires
        responses@.len() >= 1,
        responses@.len() >= max_pages,
    ensures
        (use_stub || !fetch_all) ==> (match r {
            Ok(t) => responses@[0] is Ok && t.pages@.len() == 1 && t.pages@[0] == responses@[0]->Ok_0
                && t.requests@.len() == 1 && t.requests@[0]@ == base_params@,
            Err(e) => responses@[0] is Err && e == responses@[0]->Err_0,
        }),
        (!use_stub && fetch_all) ==> ({
            let ps = match page_size {
                Some(v) => v,
                None => default_page_size,
            };
            match r {
                Ok(t) => drive_from(responses@, 0, seeded(base_params@, ps), 1, max_pages as int)
                    == Ok::<_, WmError>((reqviews(t.requests@), t.pages@)),
                Err(e) => drive_from(responses@, 0, seeded(base_params@, ps), 1, max_pages as int)
                    == Err::<(Seq<Seq<(Seq<char>, Seq<char>)>>, Seq<JsonValue>), WmError>(e),
            }
        }),
{
    let ghost resp0 = responses@;
    if use_stub || !fetch_all {
        let mut rest = responses;
        let first = rest.remove(0);
        match first {
            Ok(doc) => {
                let mut requests: Vec<ParamList> = Vec::new();
                requests.push(base_params.duplicate());
                let mut pages: Vec<JsonValue> = Vec::new();
                pages.push(doc);
                Ok(Traversal { requests, pages })
            },
            Err(e) => Err(e),
        }
    } else {
        let ps = match page_size {
            Some(v) => v,
            None => default_page_size,
        };
        let mut params = base_params.duplicate();
        params.set("page", u32_string(1));
        params.set("page_size", u32_string(ps));
        let ghost init = params@;
        assert(init == seeded(base_params@, ps));
        let mut page: u32 = 1;
        let mut requests: Vec<ParamList> = Vec::new();
        let mut pages: Vec<JsonValue> = Vec::new();
        let mut rest = responses;
        let mut count: u32 = 0;
        let mut done: bool = false;
        let ghost dout = drive_from(resp0, 0, init, 1, max_pages as int);
        while count < max_pages && !done
            invariant
                !use_stub && fetch_all,
                resp0 == responses@,
                init == seeded(
                    base_params@,
                    match page_size {
                        Some(v) => v,
                        None => default_page_size,
                    },
                ),
                0 <= count <= max_pages,
                resp0.len() >= max_pages,
                dout == drive_from(resp0, 0, init, 1, max_pages as int),
                requests@.len() == pages@.len(),
                !done ==> requests@.len() == count,
                !done ==> rest@ == resp0.skip(count as int),
                !done ==> dout == (match drive_from(
                    resp0,
                    count as int,
                    params@,
                    page,
                    max_pages as int - count,
                ) {
                    Ok(rr) => Ok::<_, WmError>((reqviews(requests@) + rr.0, pages@ + rr.1)),
                    Err(e) => Err(e),
                }),
                done ==> dout == Ok::<_, WmError>((reqviews(requests@), pages@)),
            decreases max_pages - count,
        {
            proof {
                assert(rest@.len() == resp0.len() - count >= 1);
            }
            let ghost fuel = max_pages as int - count;
            let ghost pv = params@;
            let ghost oldreqs = requests@;
            let ghost oldpages = pages@;
            let ghost dcur = drive_from(resp0, count as int, pv, page, fuel);
            let resp = rest.remove(0);
            proof {
                assert(resp == resp0.skip(count as int)[0]);
                assert(resp == resp0[count as int]);
                assert(rest@ =~= resp0.skip(count as int + 1));
            }
            match resp {
                Err(e) => {
                    proof {
                        assert(dcur == Err::<(Seq<Seq<(Seq<char>, Seq<char>)>>, Seq<JsonValue>), WmError>(e));
                    }
                    return Err(e);
                },
                Ok(doc) => {
                    let ghost dv = doc;
                    requests.push(params.duplicate());
                    let sig = continuation_of(&doc, page);
                    pages.push(doc);
                    proof {
                        assert(reqviews(requests@) =~= reqviews(oldreqs).push(pv));
                        assert(pages@ =~= oldpages.push(dv));
                    }
                    match sig {
                        ContinuationSignal::ContinuationToken(t) => {
                            let ghost tv = t@;
                            params.set("next", t);
                            proof {
                                let dnext = drive_from(
                                    resp0,
                                    count as int + 1,
                                    sset(pv, "next"@, tv),
                                    page,
                                    fuel - 1,
                                );
                                assert(params@ == sset(pv, "next"@, tv));
                                match dnext {
                                    Ok(rr) => {
                                        assert(dcur == Ok::<_, WmError>((
                                            seq![pv] + rr.0,
                                            seq![dv] + rr.1,
                                        )));
                                        assert(reqviews(requests@) + rr.0 =~= reqviews(oldreqs)
                                            + (seq![pv] + rr.0));
                                        assert(pages@ + rr.1 =~= oldpages + (seq![dv] + rr.1));
                                    },
                                    Err(e2) => {
                                        assert(dcur == Err::<(Seq<Seq<(Seq<char>, Seq<char>)>>, Seq<JsonValue>), WmError>(e2));
                                    },
                                }
                            }
                        },
                        ContinuationSignal::NextPageNumber(np) => {
                            page = np;
                            let rendered = u32_string(np);
                            params.set("page", rendered);
                            proof {
                                let dnext = drive_from(
                                    resp0,
                                    count as int + 1,
                                    sset(pv, "page"@, dec_str(np as nat)),
                                    np,
                                    fuel - 1,
                                );
                                assert(params@ == sset(pv, "page"@, dec_str(np as nat)));
                                match dnext {
                                    Ok(rr) => {
                                        assert(dcur == Ok::<_, WmError>((
                                            seq![pv] + rr.0,
                                            seq![dv] + rr.1,
                                        )));
                                        assert(reqviews(requests@) + rr.0 =~= reqviews(oldreqs)
                                            + (seq![pv] + rr.0));
                                        assert(pages@ + rr.1 =~= oldpages + (seq![dv] + rr.1));
                                    },
                                    Err(e2) => {
                                        assert(dcur == Err::<(Seq<Seq<(Seq<char>, Seq<char>)>>, Seq<JsonValue>), WmError>(e2));
                                    },
                                }
                            }
                        },
                        ContinuationSignal::Finished => {
                            done = true;
                            proof {
                                assert(dcur == Ok::<_, WmError>((seq![pv], seq![dv])));
                                assert(reqviews(requests@) =~= reqviews(oldreqs) + seq![pv]);
                                assert(pages@ =~= oldpages + seq![dv]);
                            }
                        },
                    }
                },
            }
            count = count + 1;
        }
        proof {
            if !done {
                assert(drive_from(resp0, count as int, params@, page, 0int) == Ok::<_, WmError>((
                    Seq::<Seq<(Seq<char>, Seq<char>)>>::empty(),
                    Seq::<JsonValue>::empty(),
                )));
                assert(reqviews(requests@) + Seq::<Seq<(Seq<char>, Seq<char>)>>::empty()
                    =~= reqviews(requests@));
                assert(pages@ + Seq::<JsonValue>::empty() =~= pages@);
            }
        }
        Ok(Traversal { requests, pages })
    }
}

} // verus!

