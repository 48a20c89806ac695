//! Merger: deduplicates candidate pairs by code and orders them, keeping
//! for each code the first non-null name in arrival order.

use vstd::prelude::*;
use crate::extract::cand_view;
use crate::text::{lex_lt, lemma_lex_irrefl, lemma_lex_trans, lemma_lex_connex, str_eq, str_lt};

verus! {

/// Codes appear in strictly ascending lexicographic order (hence at most
/// once).
pub open spec fn strictly_sorted(s: Seq<(Seq<char>, Option<Seq<char>>)>) -> bool {
    forall|i: int, j: int|
        0 <= i < j < s.len() ==> lex_lt((#[trigger] s[i]).0, (#[trigger] s[j]).0)
}

pub open spec fn has_code(s: Seq<(Seq<char>, Option<Seq<char>>)>, c: Seq<char>) -> bool {
    exists|i: int| 0 <= i < s.len() && (#[trigger] s[i]).0 == c
}

/// The first non-null name a code carries among the candidates at or
/// after `i`.
pub open spec fn first_name_from(
    cands: Seq<(Seq<char>, Option<Seq<char>>)>,
    c: Seq<char>,
    i: int,
) -> Option<Seq<char>>
    decreases cands.len() - i,
{
    if i < 0 || i >= cands.len() {
        None
    } else if cands[i].0 == c && cands[i].1 is Some {
        cands[i].1
    } else {
        first_name_from(cands, c, i + 1)
    }
}

pub open spec fn first_name(cands: Seq<(Seq<char>, Option<Seq<char>>)>, c: Seq<char>) -> Option<
    Seq<char>,
> {
    first_name_from(cands, c, 0)
}

/// What merging means: the output is strictly sorted by code, holds
/// exactly the codes of the input, and names each code with the first
/// non-null name the input offers for it.
pub open spec fn is_merged(
    cands: Seq<(Seq<char>, Option<Seq<char>>)>,
    out: Seq<(Seq<char>, Option<Seq<char>>)>,
) -> bool {
    &&& strictly_sorted(out)
    &&& forall|i: int| 0 <= i < out.len() ==> has_code(cands, (#[trigger] out[i]).0)
    &&& forall|i: int| 0 <= i < cands.len() ==> has_code(out, (#[trigger] cands[i]).0)
    &&& forall|i: int|
        0 <= i < out.len() ==> (#[trigger] out[i]).1 == first_name(cands, out[i].0)
}

pub proof fn lemma_first_name_absent(
    s: Seq<(Seq<char>, Option<Seq<char>>)>,
    c: Seq<char>,
    i: int,
)
    requires
        !has_code(s, c),
    ensures
        first_name_from(s, c, i) is None,
    decreases s.len() - i,
{
    if 0 <= i < s.len() {
        assert(s[i].0 != c);
        lemma_first_name_absent(s, c, i + 1);
    }
}

proof fn lemma_first_name_snoc_from(
    s: Seq<(Seq<char>, Option<Seq<char>>)>,
    p: (Seq<char>, Option<Seq<char>>),
    c: Seq<char>,
    i: int,
)
    requires
        0 <= i <= s.len(),
    ensures
        first_name_from(s.push(p), c, i) == (if first_name_from(s, c, i) is Some {
            first_name_from(s, c, i)
        } else if p.0 == c && p.1 is Some {
            p.1
        } else {
            None::<Seq<char>>
        }),
    decreases s.len() - i,
{
    let s2 = s.push(p);
    if i < s.len() {
        assert(s2[i] == s[i]);
        lemma_first_name_snoc_from(s, p, c, i + 1);
    } else {
        assert(s2[i] == p);
        assert(first_name_from(s, c, i) is None);
        assert(first_name_from(s2, c, i + 1) is None);
    }
}

/// Appending one candidate changes a code's name only where none was
/// known.
pub proof fn lemma_first_name_snoc(
    s: Seq<(Seq<char>, Option<Seq<char>>)>,
    p: (Seq<char>, Option<Seq<char>>),
    c: Seq<char>,
)
    ensures
        first_name(s.push(p), c) == (if first_name(s, c) is Some {
            first_name(s, c)
        } else if p.0 == c && p.1 is Some {
            p.1
        } else {
            None::<Seq<char>>
        }),
{
    lemma_first_name_snoc_from(s, p, c, 0);
}

proof fn lemma_first_name_concat_high(
    a: Seq<(Seq<char>, Option<Seq<char>>)>,
    b: Seq<(Seq<char>, Option<Seq<char>>)>,
    c: Seq<char>,
    j: int,
)
    requires
        0 <= j <= b.len(),
    ensures
        first_name_from(a + b, c, a.len() + j) == first_name_from(b, c, j),
    decreases b.len() - j,
{
    if j < b.len() {
        assert((a + b)[a.len() + j] == b[j]);
        lemma_first_name_concat_high(a, b, c, j + 1);
    }
}

proof fn lemma_first_name_concat_low(
    a: Seq<(Seq<char>, Option<Seq<char>>)>,
    b: Seq<(Seq<char>, Option<Seq<char>>)>,
    c: Seq<char>,
    i: int,
)
    requires
        0 <= i <= a.len(),
    ensures
        first_name_from(a + b, c, i) == (if first_name_from(a, c, i) is Some {
            first_name_from(a, c, i)
        } else {
            first_name(b, c)
        }),
    decreases a.len() - i,
{
    if i < a.len() {
        assert((a + b)[i] == a[i]);
        lemma_first_name_concat_low(a, b, c, i + 1);
    } else {
        lemma_first_name_concat_high(a, b, c, 0);
    }
}

/// Scanning a concatenation takes the first list's answer when it has
/// one.
pub proof fn lemma_first_name_concat(
    a: Seq<(Seq<char>, Option<Seq<char>>)>,
    b: Seq<(Seq<char>, Option<Seq<char>>)>,
    c: Seq<char>,
)
    ensures
        first_name(a + b, c) == (if first_name(a, c) is Some {
            first_name(a, c)
        } else {
            first_name(b, c)
        }),
{
    lemma_first_name_concat_low(a, b, c, 0);
}

proof fn lemma_sorted_same_codes(
    o1: Seq<(Seq<char>, Option<Seq<char>>)>,
    o2: Seq<(Seq<char>, Option<Seq<char>>)>,
)
    requires
        strictly_sorted(o1),
        strictly_sorted(o2),
        forall|i: int| 0 <= i < o1.len() ==> has_code(o2, (#[trigger] o1[i]).0),
        forall|i: int| 0 <= i < o2.len() ==> has_code(o1, (#[trigger] o2[i]).0),
    ensures
        o1.len() == o2.len(),
        forall|i: int| 0 <= i < o1.len() ==> (#[trigger] o1[i]).0 == o2[i].0,
    decreases o1.len(),
{
    if o1.len() == 0 {
        if o2.len() > 0 {
            assert(has_code(o1, o2[0].0));
        }
    } else if o2.len() == 0 {
        assert(has_code(o2, o1[0].0));
    } else {
        let j = choose|j: int| 0 <= j < o2.len() && (#[trigger] o2[j]).0 == o1[0].0;
        let k = choose|k: int| 0 <= k < o1.len() && (#[trigger] o1[k]).0 == o2[0].0;
        if j > 0 && k > 0 {
            assert(lex_lt(o2[0].0, o2[j].0));
            assert(lex_lt(o1[0].0, o1[k].0));
            lemma_lex_trans(o1[0].0, o2[0].0, o1[0].0);
            lemma_lex_irrefl(o1[0].0);
            assert(false);
        }
        assert(o1[0].0 == o2[0].0);
        let t1 = o1.drop_first();
        let t2 = o2.drop_first();
        assert forall|i: int| 0 <= i < t1.len() implies has_code(t2, (#[trigger] t1[i]).0) by {
            assert(t1[i] == o1[i + 1]);
            let w = choose|w: int| 0 <= w < o2.len() && (#[trigger] o2[w]).0 == o1[i + 1].0;
            if w == 0 {
                assert(lex_lt(o1[0].0, o1[i + 1].0));
                lemma_lex_irrefl(o1[0].0);
                assert(false);
            }
            assert(t2[w - 1] == o2[w]);
            assert(0 <= w - 1 < t2.len() && t2[w - 1].0 == t1[i].0);
        }
        assert forall|i: int| 0 <= i < t2.len() implies has_code(t1, (#[trigger] t2[i]).0) by {
            assert(t2[i] == o2[i + 1]);
            let w = choose|w: int| 0 <= w < o1.len() && (#[trigger] o1[w]).0 == o2[i + 1].0;
            if w == 0 {
                assert(lex_lt(o2[0].0, o2[i + 1].0));
                lemma_lex_irrefl(o2[0].0);
                assert(false);
            }
            assert(t1[w - 1] == o1[w]);
            assert(0 <= w - 1 < t1.len() && t1[w - 1].0 == t2[i].0);
        }
        assert(strictly_sorted(t1)) by {
            assert forall|x: int, y: int| 0 <= x < y < t1.len() implies lex_lt(
                (#[trigger] t1[x]).0,
                (#[trigger] t1[y]).0,
            ) by {
                assert(t1[x] == o1[x + 1] && t1[y] == o1[y + 1]);
            }
        }
        assert(strictly_sorted(t2)) by {
            assert forall|x: int, y: int| 0 <= x < y < t2.len() implies lex_lt(
                (#[trigger] t2[x]).0,
                (#[trigger] t2[y]).0,
            ) by {
                assert(t2[x] == o2[x + 1] && t2[y] == o2[y + 1]);
            }
        }
        lemma_sorted_same_codes(t1, t2);
        assert forall|i: int| 0 <= i < o1.len() implies (#[trigger] o1[i]).0 == o2[i].0 by {
            if i > 0 {
                assert(t1[i - 1] == o1[i] && t2[i - 1] == o2[i]);
            }
        }
    }
}

/// The merge characterization pins the output: two merges of the same
/// candidates are one sequence.
pub proof fn lemma_merged_unique(
    cands: Seq<(Seq<char>, Option<Seq<char>>)>,
    o1: Seq<(Seq<char>, Option<Seq<char>>)>,
    o2: Seq<(Seq<char>, Option<Seq<char>>)>,
)
    requires
        is_merged(cands, o1),
        is_merged(cands, o2),
    ensures
        o1 == o2,
{
    assert forall|i: int| 0 <= i < o1.len() implies has_code(o2, (#[trigger] o1[i]).0) by {
        let w = choose|w: int| 0 <= w < cands.len() && (#[trigger] cands[w]).0 == o1[i].0;
        assert(has_code(cands, o1[i].0));
    }
    assert forall|i: int| 0 <= i < o2.len() implies has_code(o1, (#[trigger] o2[i]).0) by {
        let w = choose|w: int| 0 <= w < cands.len() && (#[trigger] cands[w]).0 == o2[i].0;
        assert(has_code(cands, o2[i].0));
    }
    lemma_sorted_same_codes(o1, o2);
    assert forall|i: int| 0 <= i < o1.len() implies o1[i] == o2[i] by {
        assert(o1[i].0 == o2[i].0);
        assert(o1[i].1 == first_name(cands, o1[i].0));
        assert(o2[i].1 == first_name(cands, o2[i].0));
        assert(o1[i] =~= o2[i]);
    }
    assert(o1 =~= o2);
}

/// Merging a candidate list concatenated with itself gives the same
/// result as merging it once.
pub proof fn lemma_merge_idempotent(
    l: Seq<(Seq<char>, Option<Seq<char>>)>,
    once: Seq<(Seq<char>, Option<Seq<char>>)>,
    twice: Seq<(Seq<char>, Option<Seq<char>>)>,
)
    requires
        is_merged(l, once),
        is_merged(l + l, twice),
    ensures
        once == twice,
{
    let d = l + l;
    assert forall|i: int| 0 <= i < once.len() implies has_code(d, (#[trigger] once[i]).0) by {
        let w = choose|w: int| 0 <= w < l.len() && (#[trigger] l[w]).0 == once[i].0;
        assert(d[w] == l[w]);
        assert(0 <= w < d.len() && d[w].0 == once[i].0);
    }
    assert forall|i: int| 0 <= i < d.len() implies has_code(once, (#[trigger] d[i]).0) by {
        if i < l.len() {
            assert(d[i] == l[i]);
        } else {
            assert(d[i] == l[i - l.len()]);
        }
    }
    assert forall|i: int| 0 <= i < once.len() implies (#[trigger] once[i]).1 == first_name(
        d,
        once[i].0,
    ) by {
        lemma_first_name_concat(l, l, once[i].0);
    }
    assert(is_merged(d, once));
    lemma_merged_unique(d, once, twice);
}

/// In a merged output each code appears exactly once: strict ordering
/// forbids a repetition.
pub proof fn lemma_merged_codes_unique(
    cands: Seq<(Seq<char>, Option<Seq<char>>)>,
    out: Seq<(Seq<char>, Option<Seq<char>>)>,
)
    requires
        is_merged(cands, out),
    ensures
        forall|i: int, j: int|
            0 <= i < j < out.len() ==> (#[trigger] out[i]).0 != (#[trigger] out[j]).0,
{
    assert forall|i: int, j: int| 0 <= i < j < out.len() implies (#[trigger] out[i]).0 != (
    #[trigger] out[j]).0 by {
        if out[i].0 == out[j].0 {
            assert(lex_lt(out[i].0, out[j].0));
            lemma_lex_irrefl(out[i].0);
        }
    }
}

fn clone_opt_name(o: &Option<String>) -> (r: Option<String>)
    ensures
        r == *o,
{
    match o {
        Some(s) => Some(s.clone()),
        None => None,
    }
}

/// Groups the candidates by code, keeps the first non-null name per code,
/// and returns the groups sorted ascending by code (byte-wise, no case
/// folding).
pub fn merge_candidates(cands: &Vec<(String, Option<String>)>) -> (r: Vec<
    (String, Option<String>),
>)
    ensures
        is_merged(cand_view(cands@), cand_view(r@)),
{
    let n = cands.len();
    let mut out: Vec<(String, Option<String>)> = Vec::new();
    let mut k: usize = 0;
    while k < n
        invariant
            n == cands@.len(),
            0 <= k <= n,
            is_merged(cand_view(cands@).subrange(0, k as int), cand_view(out@)),
        decreases n - k,
    {
        let ghost prefix = cand_view(cands@).subrange(0, k as int);
        let ghost p = cand_view(cands@)[k as int];
        let ghost prefix2 = cand_view(cands@).subrange(0, k as int + 1);
        proof {
            assert(prefix2 =~= prefix.push(p));
        }
        let m = out.len();
        let mut pos: usize = 0;
        while pos < m && str_lt(out[pos].0.as_str(), cands[k].0.as_str())
            invariant
                n == cands@.len(),
                0 <= k < n,
                m == out@.len(),
                0 <= pos <= m,
                p == cand_view(cands@)[k as int],
                forall|q: int|
                    0 <= q < pos ==> lex_lt((#[trigger] cand_view(out@)[q]).0, p.0),
            decreases m - pos,
        {
            assert(cand_view(out@)[pos as int].0 == out@[pos as int].0@);
            pos = pos + 1;
        }
        let ghost oldv = cand_view(out@);
        proof {
            assert(forall|q: int| 0 <= q < pos ==> lex_lt((#[trigger] oldv[q]).0, p.0));
            if (pos as int) < oldv.len() {
                assert(!lex_lt(oldv[pos as int].0, p.0));
            }
        }
        let same_code: bool = if pos < out.len() {
            str_eq(out[pos].0.as_str(), cands[k].0.as_str())
        } else {
            false
        };
        if !same_code {
            // a new code: insert it in order
            proof {
                if (pos as int) < oldv.len() {
                    assert(oldv[pos as int].0 != p.0);
                    if !lex_lt(p.0, oldv[pos as int].0) {
                        lemma_lex_connex(oldv[pos as int].0, p.0);
                    }
                    assert(lex_lt(p.0, oldv[pos as int].0));
                }
                if has_code(prefix, p.0) {
                    let w = choose|w: int|
                        0 <= w < oldv.len() && (#[trigger] oldv[w]).0 == p.0;
                    if w < pos {
                        lemma_lex_irrefl(p.0);
                    } else if w == pos {
                        assert(false);
                    } else {
                        assert(lex_lt(oldv[pos as int].0, oldv[w].0));
                        lemma_lex_trans(p.0, oldv[pos as int].0, oldv[w].0);
                        lemma_lex_irrefl(p.0);
                    }
                }
                lemma_first_name_absent(prefix, p.0, 0);
            }
            let code_c = cands[k].0.clone();
            let name_c = clone_opt_name(&cands[k].1);
            out.insert(pos, (code_c, name_c));
            let ghost newv = cand_view(out@);
            proof {
                assert(newv =~= oldv.insert(pos as int, p));
                // sorted
                assert forall|x: int, y: int| 0 <= x < y < newv.len() implies lex_lt(
                    (#[trigger] newv[x]).0,
                    (#[trigger] newv[y]).0,
                ) by {
                    let px = if x < pos {
                        x
                    } else {
                        x - 1
                    };
                    let py = if y < pos {
                        y
                    } else {
                        y - 1
                    };
                    if x == pos {
                        assert(newv[x] == p);
                        assert(newv[y] == oldv[py]);
                        if py == pos {
                            assert(lex_lt(p.0, oldv[pos as int].0));
                        } else {
                            assert(lex_lt(oldv[pos as int].0, oldv[py].0));
                            lemma_lex_trans(p.0, oldv[pos as int].0, oldv[py].0);
                        }
                    } else if y == pos {
                        assert(newv[x] == oldv[px]);
                        assert(newv[y] == p);
                        assert(lex_lt(oldv[px].0, p.0));
                    } else {
                        assert(newv[x] == oldv[px] && newv[y] == oldv[py]);
                        if px < py {
                        } else {
                            assert(px == py);
                            assert(x < pos && y > pos);
                            assert(lex_lt(oldv[px].0, p.0));
                            assert(lex_lt(p.0, oldv[py].0));
                            lemma_lex_trans(oldv[px].0, p.0, oldv[py].0);
                        }
                    }
                }
                // membership: output codes come from the input
                assert forall|i: int| 0 <= i < newv.len() implies has_code(
                    prefix2,
                    (#[trigger] newv[i]).0,
                ) by {
                    if i == pos {
                        assert(prefix2[prefix.len() as int] == p);
                    } else {
                        let pi = if i < pos {
                            i
                        } else {
                            i - 1
                        };
                        assert(newv[i] == oldv[pi]);
                        let w = choose|w: int|
                            0 <= w < prefix.len() && (#[trigger] prefix[w]).0 == oldv[pi].0;
                        assert(prefix2[w] == prefix[w]);
                    }
                }
                // membership: input codes appear in the output
                assert forall|i: int| 0 <= i < prefix2.len() implies has_code(
                    newv,
                    (#[trigger] prefix2[i]).0,
                ) by {
                    if i < prefix.len() {
                        assert(prefix2[i] == prefix[i]);
                        let w = choose|w: int|
                            0 <= w < oldv.len() && (#[trigger] oldv[w]).0 == prefix[i].0;
                        if w < pos {
                            assert(newv[w] == oldv[w]);
                        } else {
                            assert(newv[w + 1] == oldv[w]);
                        }
                    } else {
                        assert(prefix2[i] == p);
                        assert(newv[pos as int] == p);
                    }
                }
                // names
                assert forall|i: int| 0 <= i < newv.len() implies (#[trigger] newv[i]).1
                    == first_name(prefix2, newv[i].0) by {
                    lemma_first_name_snoc(prefix, p, newv[i].0);
                    if i == pos {
                        assert(newv[i] == p);
                    } else {
                        let pi = if i < pos {
                            i
                        } else {
                            i - 1
                        };
                        assert(newv[i] == oldv[pi]);
                        if oldv[pi].0 == p.0 {
                            if pi < pos {
                                lemma_lex_irrefl(p.0);
                            } else if pi == pos {
                                assert(oldv[pos as int].0 != p.0);
                            } else {
                                if !lex_lt(p.0, oldv[pos as int].0) {
                                    lemma_lex_connex(oldv[pos as int].0, p.0);
                                }
                                assert(lex_lt(oldv[pos as int].0, oldv[pi].0));
                                lemma_lex_trans(p.0, oldv[pos as int].0, oldv[pi].0);
                                lemma_lex_irrefl(p.0);
                            }
                            assert(false);
                        }
                    }
                }
                assert(is_merged(prefix2, newv));
            }
        } else {
            // the code is known: keep it, fill a missing name
            assert(oldv[pos as int].0 == p.0);
            let update: bool = out[pos].1.is_none() && cands[k].1.is_some();
            if update {
                let kept = out.remove(pos);
                let name_c = clone_opt_name(&cands[k].1);
                out.insert(pos, (kept.0, name_c));
            }
            let ghost newv = cand_view(out@);
            proof {
                if update {
                    assert(newv =~= oldv.update(pos as int, (p.0, p.1)));
                } else {
                    assert(newv =~= oldv);
                }
                assert(newv.len() == oldv.len());
                assert(forall|i: int|
                    0 <= i < newv.len() ==> (#[trigger] newv[i]).0 == oldv[i].0);
                // codes elsewhere differ from p.0
                assert forall|i: int| 0 <= i < oldv.len() && i != pos implies (
                #[trigger] oldv[i]).0 != p.0 by {
                    if oldv[i].0 == p.0 {
                        if i < pos {
                            assert(lex_lt(oldv[i].0, oldv[pos as int].0));
                        } else {
                            assert(lex_lt(oldv[pos as int].0, oldv[i].0));
                        }
                        lemma_lex_irrefl(p.0);
                    }
                }
                // sorted
                assert forall|x: int, y: int| 0 <= x < y < newv.len() implies lex_lt(
                    (#[trigger] newv[x]).0,
                    (#[trigger] newv[y]).0,
                ) by {
                    assert(lex_lt(oldv[x].0, oldv[y].0));
                }
                // membership both ways
                assert forall|i: int| 0 <= i < newv.len() implies has_code(
                    prefix2,
                    (#[trigger] newv[i]).0,
                ) by {
                    let w = choose|w: int|
                        0 <= w < prefix.len() && (#[trigger] prefix[w]).0 == oldv[i].0;
                    assert(prefix2[w] == prefix[w]);
                }
                assert forall|i: int| 0 <= i < prefix2.len() implies has_code(
                    newv,
                    (#[trigger] prefix2[i]).0,
                ) by {
                    if i < prefix.len() {
                        assert(prefix2[i] == prefix[i]);
                        let w = choose|w: int|
                            0 <= w < oldv.len() && (#[trigger] oldv[w]).0 == prefix[i].0;
                        assert(newv[w].0 == oldv[w].0);
                    } else {
                        assert(prefix2[i] == p);
                        assert(newv[pos as int].0 == p.0);
                    }
                }
                // names
                assert forall|i: int| 0 <= i < newv.len() implies (#[trigger] newv[i]).1
                    == first_name(prefix2, newv[i].0) by {
                    lemma_first_name_snoc(prefix, p, newv[i].0);
                    if i == pos {
                        if update {
                            assert(newv[i].1 == p.1);
                        } else {
                            assert(newv[i] == oldv[i]);
                        }
                    } else {
                        assert(newv[i] == oldv[i]);
                        assert(oldv[i].0 != p.0);
                    }
                }
                assert(is_merged(prefix2, newv));
            }
        }
        k = k + 1;
    }
    proof {
        assert(cand_view(cands@).subrange(0, n as int) =~= cand_view(cands@));
    }
    out
}

} // verus!
