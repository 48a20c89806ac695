//! Character and string groundwork: whitespace trimming, string equality,
//! and byte-wise (code-point) lexicographic ordering of strings.

use vstd::prelude::*;
use vstd::string::*;

verus! {

/// The characters carrying the Unicode `White_Space` property: exactly the
/// set removed from the ends of a string when it is trimmed.
pub open spec fn is_space(c: char) -> bool {
    let u = c as u32;
    u == 0x20 || (0x9 <= u && u <= 0xD) || u == 0x85 || u == 0xA0 || u == 0x1680 || (0x2000 <= u
        && u <= 0x200A) || u == 0x2028 || u == 0x2029 || u == 0x202F || u == 0x205F || u == 0x3000
}

pub fn is_space_char(c: char) -> (r: bool)
    ensures
        r == is_space(c),
{
    let u = c as u32;
    u == 0x20 || (0x9 <= u && u <= 0xD) || u == 0x85 || u == 0xA0 || u == 0x1680 || (0x2000 <= u
        && u <= 0x200A) || u == 0x2028 || u == 0x2029 || u == 0x202F || u == 0x205F || u == 0x3000
}

/// Index of the first non-space character at or after `i`, or `s.len()`.
pub open spec fn trim_start_idx(s: Seq<char>, i: int) -> int
    decreases s.len() - i,
{
    if i < 0 || i >= s.len() {
        s.len() as int
    } else if is_space(s[i]) {
        trim_start_idx(s, i + 1)
    } else {
        i
    }
}

/// One past the last non-space character strictly before `i`, or `0`.
pub open spec fn trim_end_idx(s: Seq<char>, i: int) -> int
    decreases i,
{
    if i <= 0 || i > s.len() {
        0
    } else if is_space(s[i - 1]) {
        trim_end_idx(s, i - 1)
    } else {
        i
    }
}

/// The string with leading and trailing whitespace removed.
pub open spec fn trim_of(s: Seq<char>) -> Seq<char> {
    let lo = trim_start_idx(s, 0);
    let hi = trim_end_idx(s, s.len() as int);
    if lo <= hi {
        s.subrange(lo, hi)
    } else {
        Seq::empty()
    }
}

pub proof fn lemma_trim_start_bounds(s: Seq<char>, i: int)
    requires
        0 <= i <= s.len(),
    ensures
        i <= trim_start_idx(s, i) <= s.len(),
    decreases s.len() - i,
{
    if i < s.len() && is_space(s[i]) {
        lemma_trim_start_bounds(s, i + 1);
    }
}

pub proof fn lemma_trim_start_spaces(s: Seq<char>, i: int, j: int)
    requires
        0 <= i <= s.len(),
        i <= j < trim_start_idx(s, i),
    ensures
        is_space(s[j]),
    decreases s.len() - i,
{
    if i < s.len() && is_space(s[i]) && j > i {
        lemma_trim_start_spaces(s, i + 1, j);
    }
}

pub proof fn lemma_trim_start_char(s: Seq<char>, i: int)
    requires
        0 <= i <= s.len(),
        trim_start_idx(s, i) < s.len(),
    ensures
        !is_space(s[trim_start_idx(s, i)]),
    decreases s.len() - i,
{
    if i < s.len() && is_space(s[i]) {
        lemma_trim_start_char(s, i + 1);
    }
}

pub proof fn lemma_trim_end_bounds(s: Seq<char>, i: int)
    requires
        0 <= i <= s.len(),
    ensures
        0 <= trim_end_idx(s, i) <= i,
    decreases i,
{
    if i > 0 && is_space(s[i - 1]) {
        lemma_trim_end_bounds(s, i - 1);
    }
}

pub proof fn lemma_trim_end_char(s: Seq<char>, i: int)
    requires
        0 <= i <= s.len(),
        trim_end_idx(s, i) > 0,
    ensures
        !is_space(s[trim_end_idx(s, i) - 1]),
    decreases i,
{
    if i > 0 && is_space(s[i - 1]) {
        lemma_trim_end_char(s, i - 1);
    }
}

/// Trimming an already trimmed string changes nothing.
pub proof fn lemma_trim_of_trimmed(s: Seq<char>)
    ensures
        trim_of(trim_of(s)) == trim_of(s),
{
    let t = trim_of(s);
    if t.len() == 0 {
        assert(trim_of(t) =~= t);
    } else {
        let lo = trim_start_idx(s, 0);
        let hi = trim_end_idx(s, s.len() as int);
        lemma_trim_start_bounds(s, 0);
        lemma_trim_end_bounds(s, s.len() as int);
        assert(lo <= hi);
        lemma_trim_start_char(s, 0);
        lemma_trim_end_char(s, s.len() as int);
        assert(t[0] == s[lo]);
        assert(t[t.len() - 1] == s[hi - 1]);
        assert(trim_start_idx(t, 0) == 0);
        assert(trim_end_idx(t, t.len() as int) == t.len() as int);
        assert(trim_of(t) =~= t);
    }
}

/// The trimmed form of a string, as `str::trim` computes it.
pub fn trimmed(s: &str) -> (r: String)
    ensures
        r@ == trim_of(s@),
{
    let n = s.unicode_len();
    let mut lo: usize = 0;
    while lo < n && is_space_char(s.get_char(lo))
        invariant
            n == s@.len(),
            0 <= lo <= n,
            trim_start_idx(s@, 0) == trim_start_idx(s@, lo as int),
        decreases n - lo,
    {
        lo = lo + 1;
    }
    assert(trim_start_idx(s@, 0) == lo as int);
    if lo == n {
        proof {
            if n > 0 {
                lemma_trim_start_spaces(s@, 0, n as int - 1);
                lemma_trim_end_bounds(s@, n as int - 1);
                assert(trim_end_idx(s@, n as int) <= n - 1);
            }
            assert(trim_of(s@) =~= Seq::<char>::empty());
        }
        return String::new();
    }
    let mut hi: usize = n;
    while hi > lo && is_space_char(s.get_char(hi - 1))
        invariant
            n == s@.len(),
            lo < n,
            !is_space(s@[lo as int]),
            lo < hi <= n,
            trim_end_idx(s@, n as int) == trim_end_idx(s@, hi as int),
        decreases hi,
    {
        hi = hi - 1;
    }
    assert(trim_end_idx(s@, n as int) == hi as int);
    let t = s.substring_char(lo, hi);
    proof {
        assert(trim_of(s@) =~= s@.subrange(lo as int, hi as int));
    }
    String::from_str(t)
}

/// String equality, decided character by character.
pub fn str_eq(a: &str, b: &str) -> (r: bool)
    ensures
        r == (a@ == b@),
{
    let na = a.unicode_len();
    let nb = b.unicode_len();
    if na != nb {
        return false;
    }
    let mut i: usize = 0;
    while i < na
        invariant
            na == a@.len(),
            na == b@.len(),
            0 <= i <= na,
            forall|j: int| 0 <= j < i ==> a@[j] == b@[j],
        decreases na - i,
    {
        if a.get_char(i) != b.get_char(i) {
            return false;
        }
        i = i + 1;
    }
    proof {
        assert(a@ =~= b@);
    }
    true
}

/// Lexicographic strictly-less-than on the suffixes starting at `i`,
/// comparing code points.
pub open spec fn lex_lt_from(a: Seq<char>, b: Seq<char>, i: int) -> bool
    decreases b.len() - i,
{
    if i < 0 || i >= b.len() {
        false
    } else if i >= a.len() {
        true
    } else if a[i] < b[i] {
        true
    } else if b[i] < a[i] {
        false
    } else {
        lex_lt_from(a, b, i + 1)
    }
}

/// Lexicographic strictly-less-than on whole strings.
pub open spec fn lex_lt(a: Seq<char>, b: Seq<char>) -> bool {
    lex_lt_from(a, b, 0)
}

pub proof fn lemma_lex_irrefl_from(a: Seq<char>, i: int)
    ensures
        !lex_lt_from(a, a, i),
    decreases a.len() - i,
{
    if 0 <= i < a.len() {
        lemma_lex_irrefl_from(a, i + 1);
    }
}

pub proof fn lemma_lex_irrefl(a: Seq<char>)
    ensures
        !lex_lt(a, a),
{
    lemma_lex_irrefl_from(a, 0);
}

pub proof fn lemma_lex_trans_from(a: Seq<char>, b: Seq<char>, c: Seq<char>, i: int)
    requires
        lex_lt_from(a, b, i),
        lex_lt_from(b, c, i),
    ensures
        lex_lt_from(a, c, i),
    decreases c.len() - i,
{
    if 0 <= i < b.len() && 0 <= i < c.len() && i < a.len() {
        if !(a[i] < b[i]) && !(b[i] < a[i]) && !(b[i] < c[i]) && !(c[i] < b[i]) {
            lemma_lex_trans_from(a, b, c, i + 1);
        }
    }
}

pub proof fn lemma_lex_trans(a: Seq<char>, b: Seq<char>, c: Seq<char>)
    requires
        lex_lt(a, b),
        lex_lt(b, c),
    ensures
        lex_lt(a, c),
{
    lemma_lex_trans_from(a, b, c, 0);
}

pub proof fn lemma_lex_connex_from(a: Seq<char>, b: Seq<char>, i: int)
    requires
        0 <= i <= a.len(),
        0 <= i <= b.len(),
        !lex_lt_from(a, b, i),
        !lex_lt_from(b, a, i),
    ensures
        a.len() == b.len(),
        forall|j: int| i <= j < a.len() ==> a[j] == b[j],
    decreases a.len() - i,
{
    if i < a.len() && i < b.len() {
        assert(a[i] == b[i]);
        lemma_lex_connex_from(a, b, i + 1);
    }
}

/// Two strings that neither orders below the other are equal.
pub proof fn lemma_lex_connex(a: Seq<char>, b: Seq<char>)
    requires
        !lex_lt(a, b),
        !lex_lt(b, a),
    ensures
        a == b,
{
    lemma_lex_connex_from(a, b, 0);
    assert(a =~= b);
}

/// Decides `lex_lt` on string slices.
pub fn str_lt(a: &str, b: &str) -> (r: bool)
    ensures
        r == lex_lt(a@, b@),
{
    let na = a.unicode_len();
    let nb = b.unicode_len();
    let mut i: usize = 0;
    loop
        invariant
            na == a@.len(),
            nb == b@.len(),
            0 <= i <= na,
            0 <= i <= nb,
            lex_lt(a@, b@) == lex_lt_from(a@, b@, i as int),
        decreases nb - i,
    {
        if i >= nb {
            return false;
        }
        if i >= na {
            return true;
        }
        let ca = a.get_char(i);
        let cb = b.get_char(i);
        if ca < cb {
            return true;
        }
        if cb < ca {
            return false;
        }
        i = i + 1;
    }
}

/// True of an ASCII decimal digit.
pub open spec fn is_digit(c: char) -> bool {
    '0' <= c && c <= '9'
}

/// Numeric value of a decimal digit; ten for anything else.
pub open spec fn digit_of(c: char) -> nat {
    if c == '0' {
        0
    } else if c == '1' {
        1
    } else if c == '2' {
        2
    } else if c == '3' {
        3
    } else if c == '4' {
        4
    } else if c == '5' {
        5
    } else if c == '6' {
        6
    } else if c == '7' {
        7
    } else if c == '8' {
        8
    } else if c == '9' {
        9
    } else {
        10
    }
}

/// The decimal digit for a value below ten.
pub open spec fn dchar(d: nat) -> char {
    if d == 0 {
        '0'
    } else if d == 1 {
        '1'
    } else if d == 2 {
        '2'
    } else if d == 3 {
        '3'
    } else if d == 4 {
        '4'
    } else if d == 5 {
        '5'
    } else if d == 6 {
        '6'
    } else if d == 7 {
        '7'
    } else if d == 8 {
        '8'
    } else {
        '9'
    }
}

/// Value of the first `i` characters read as decimal digits.
pub open spec fn dec_val(s: Seq<char>, i: int) -> nat
    decreases i,
{
    if i <= 0 || i > s.len() {
        0
    } else {
        dec_val(s, i - 1) * 10 + digit_of(s[i - 1])
    }
}

pub open spec fn all_digits(s: Seq<char>) -> bool {
    forall|i: int| 0 <= i < s.len() ==> is_digit(#[trigger] s[i])
}

/// The digits of a numeric literal: everything after an optional
/// leading `+`.
pub open spec fn parse_body(s: Seq<char>) -> Seq<char> {
    if s.len() > 0 && s[0] == '+' {
        s.subrange(1, s.len() as int)
    } else {
        s
    }
}

/// What `str::parse` accepts for an unsigned integer: an optional leading
/// `+`, then one or more digits, with a value that fits in the type.
pub open spec fn parse_u64_of(s: Seq<char>) -> Option<u64> {
    let body = parse_body(s);
    if body.len() > 0 && all_digits(body) && dec_val(body, body.len() as int) <= u64::MAX {
        Some(dec_val(body, body.len() as int) as u64)
    } else {
        None
    }
}

pub open spec fn parse_u32_of(s: Seq<char>) -> Option<u32> {
    match parse_u64_of(s) {
        Some(v) => if v <= u32::MAX as u64 {
            Some(v as u32)
        } else {
            None
        },
        None => None,
    }
}

pub proof fn lemma_dec_val_mono(s: Seq<char>, i: int, j: int)
    requires
        0 <= i <= j <= s.len(),
    ensures
        dec_val(s, i) <= dec_val(s, j),
    decreases j - i,
{
    if i < j {
        lemma_dec_val_mono(s, i, j - 1);
        assert(dec_val(s, j - 1) * 10 >= dec_val(s, j - 1)) by (nonlinear_arith);
    }
}

fn digit_val(c: char) -> (d: u64)
    requires
        is_digit(c),
    ensures
        d as nat == digit_of(c),
        d <= 9,
{
    if c == '0' {
        0
    } else if c == '1' {
        1
    } else if c == '2' {
        2
    } else if c == '3' {
        3
    } else if c == '4' {
        4
    } else if c == '5' {
        5
    } else if c == '6' {
        6
    } else if c == '7' {
        7
    } else if c == '8' {
        8
    } else {
        9
    }
}

/// Decides `parse_u64_of` on a string slice.
pub fn parse_u64(s: &str) -> (r: Option<u64>)
    ensures
        r == parse_u64_of(s@),
{
    let n = s.unicode_len();
    let mut start: usize = 0;
    if n > 0 && s.get_char(0) == '+' {
        start = 1;
    }
    let ghost body = parse_body(s@);
    assert(body.len() == n - start);
    assert(forall|j: int| 0 <= j < body.len() ==> body[j] == s@[j + start]);
    if start >= n {
        return None;
    }
    let mut acc: u64 = 0;
    let mut k: usize = start;
    while k < n
        invariant
            n == s@.len(),
            start <= k <= n,
            start < n,
            body == parse_body(s@),
            body.len() == n - start,
            forall|j: int| 0 <= j < body.len() ==> body[j] == s@[j + start],
            forall|j: int| 0 <= j < k - start ==> is_digit(#[trigger] body[j]),
            acc as nat == dec_val(body, k - start),
        decreases n - k,
    {
        let c = s.get_char(k);
        if !('0' <= c && c <= '9') {
            assert(!is_digit(body[k - start]));
            return None;
        }
        let d = digit_val(c);
        let ghost pos = k - start + 1;
        assert(dec_val(body, pos) == dec_val(body, pos - 1) * 10 + digit_of(body[pos - 1]));
        let step = match acc.checked_mul(10) {
            Some(m) => m.checked_add(d),
            None => None,
        };
        match step {
            Some(v) => {
                acc = v;
            },
            None => {
                proof {
                    lemma_dec_val_mono(body, pos, body.len() as int);
                }
                return None;
            },
        }
        k = k + 1;
    }
    assert(dec_val(body, body.len() as int) == acc as nat);
    Some(acc)
}

/// Decides `parse_u32_of` on a string slice.
pub fn parse_u32(s: &str) -> (r: Option<u32>)
    ensures
        r == parse_u32_of(s@),
{
    match parse_u64(s) {
        Some(v) => {
            if v <= 0xFFFF_FFFF {
                Some(v as u32)
            } else {
                None
            }
        },
        None => None,
    }
}

/// Decimal rendering of a number, most significant digit first.
pub open spec fn dec_str(v: nat) -> Seq<char>
    decreases v,
{
    if v < 10 {
        seq![dchar(v)]
    } else {
        dec_str(v / 10).push(dchar(v % 10))
    }
}

fn digit_str(d: u32) -> (r: &'static str)
    requires
        d < 10,
    ensures
        r@ == seq![dchar(d as nat)],
{
    if d == 0 {
        proof {
            reveal_strlit("0");
            assert("0"@ =~= seq![dchar(0)]);
        }
        "0"
    } else if d == 1 {
        proof {
            reveal_strlit("1");
            assert("1"@ =~= seq![dchar(1)]);
        }
        "1"
    } else if d == 2 {
        proof {
            reveal_strlit("2");
            assert("2"@ =~= seq![dchar(2)]);
        }
        "2"
    } else if d == 3 {
        proof {
            reveal_strlit("3");
            assert("3"@ =~= seq![dchar(3)]);
        }
        "3"
    } else if d == 4 {
        proof {
            reveal_strlit("4");
            assert("4"@ =~= seq![dchar(4)]);
        }
        "4"
    } else if d == 5 {
        proof {
            reveal_strlit("5");
            assert("5"@ =~= seq![dchar(5)]);
        }
        "5"
    } else if d == 6 {
        proof {
            reveal_strlit("6");
            assert("6"@ =~= seq![dchar(6)]);
        }
        "6"
    } else if d == 7 {
        proof {
            reveal_strlit("7");
            assert("7"@ =~= seq![dchar(7)]);
        }
        "7"
    } else if d == 8 {
        proof {
            reveal_strlit("8");
            assert("8"@ =~= seq![dchar(8)]);
        }
        "8"
    } else {
        proof {
            reveal_strlit("9");
            assert("9"@ =~= seq![dchar(9)]);
        }
        "9"
    }
}

/// The digit stack read back most significant digit first.
pub open spec fn rev_digit_chars(ds: Seq<u32>) -> Seq<char> {
    Seq::new(ds.len(), |i: int| dchar(ds[ds.len() - 1 - i] as nat))
}

/// Renders a number in decimal, as `u32::to_string` does.
pub fn u32_string(v: u32) -> (r: String)
    ensures
        r@ == dec_str(v as nat),
{
    if v == 0 {
        let r = String::from_str(digit_str(0));
        return r;
    }
    let mut digits: Vec<u32> = Vec::new();
    let mut x: u32 = v;
    loop
        invariant_except_break
            x >= 1,
            dec_str(v as nat) =~= dec_str(x as nat) + rev_digit_chars(digits@),
            forall|t: int| 0 <= t < digits@.len() ==> (#[trigger] digits@[t]) < 10,
        ensures
            dec_str(v as nat) =~= rev_digit_chars(digits@),
            forall|t: int| 0 <= t < digits@.len() ==> (#[trigger] digits@[t]) < 10,
        decreases x,
    {
        let d: u32 = x % 10;
        let x2: u32 = x / 10;
        digits.push(d);
        proof {
            assert(rev_digit_chars(digits@) =~= seq![dchar(d as nat)] + rev_digit_chars(
                digits@.drop_last(),
            ));
        }
        if x2 == 0 {
            assert(dec_str(x as nat) =~= seq![dchar(d as nat)]);
            assert(dec_str(v as nat) =~= rev_digit_chars(digits@));
            break;
        }
        proof {
            assert(dec_str(x as nat) =~= dec_str(x2 as nat).push(dchar(d as nat)));
            assert(dec_str(x2 as nat) + rev_digit_chars(digits@) =~= dec_str(x as nat)
                + rev_digit_chars(digits@.drop_last()));
        }
        x = x2;
    }
    let total = digits.len();
    let mut out = String::new();
    let mut j: usize = total;
    while j > 0
        invariant
            total == digits@.len(),
            0 <= j <= total,
            forall|t: int| 0 <= t < digits@.len() ==> (#[trigger] digits@[t]) < 10,
            out@ =~= rev_digit_chars(digits@).subrange(0, total - j),
        decreases j,
    {
        let d = digits[j - 1];
        assert(d < 10 && d as nat == digits@[j - 1] as nat);
        out.append(digit_str(d));
        proof {
            assert(rev_digit_chars(digits@)[total - j] == dchar(digits@[j - 1] as nat));
            assert(out@ =~= rev_digit_chars(digits@).subrange(0, total - j + 1));
        }
        j = j - 1;
    }
    proof {
        assert(out@ =~= rev_digit_chars(digits@));
    }
    out
}

/// First position at or after `i` where `pat` occurs in `s`.
pub open spec fn find_at(s: Seq<char>, pat: Seq<char>, i: int) -> Option<int>
    decreases s.len() + 1 - i,
{
    if i < 0 || i + pat.len() > s.len() {
        None
    } else if s.subrange(i, i + pat.len() as int) == pat {
        Some(i)
    } else {
        find_at(s, pat, i + 1)
    }
}

/// First position at or after `i` holding `c`, or `s.len()`.
pub open spec fn char_idx(s: Seq<char>, c: char, i: int) -> int
    decreases s.len() - i,
{
    if i < 0 || i >= s.len() {
        s.len() as int
    } else if s[i] == c {
        i
    } else {
        char_idx(s, c, i + 1)
    }
}

/// Where a pattern is found, it fits and matches.
pub proof fn lemma_find_at_props(s: Seq<char>, pat: Seq<char>, i: int, k: int)
    requires
        0 <= i,
        find_at(s, pat, i) == Some(k),
    ensures
        i <= k,
        k + pat.len() <= s.len(),
        s.subrange(k, k + pat.len() as int) == pat,
    decreases s.len() + 1 - i,
{
    if i + pat.len() <= s.len() && s.subrange(i, i + pat.len() as int) != pat {
        lemma_find_at_props(s, pat, i + 1, k);
    }
}

pub proof fn lemma_char_idx_props(s: Seq<char>, c: char, i: int)
    requires
        0 <= i <= s.len(),
    ensures
        i <= char_idx(s, c, i) <= s.len(),
    decreases s.len() - i,
{
    if i < s.len() && s[i] != c {
        lemma_char_idx_props(s, c, i + 1);
    }
}

fn match_at(s: &str, pat: &str, i: usize, n: usize, m: usize) -> (r: bool)
    requires
        n == s@.len(),
        m == pat@.len(),
        i + m <= n,
    ensures
        r == (s@.subrange(i as int, i as int + m as int) == pat@),
{
    let mut k: usize = 0;
    while k < m
        invariant
            n == s@.len(),
            m == pat@.len(),
            i + m <= n,
            0 <= k <= m,
            forall|j: int| 0 <= j < k ==> s@[i + j] == pat@[j],
        decreases m - k,
    {
        if s.get_char(i + k) != pat.get_char(k) {
            assert(s@.subrange(i as int, i as int + m as int)[k as int] != pat@[k as int]);
            return false;
        }
        k = k + 1;
    }
    proof {
        assert(s@.subrange(i as int, i as int + m as int) =~= pat@);
    }
    true
}

/// Decides `find_at(s, pat, 0)` on string slices.
pub fn find_str(s: &str, pat: &str) -> (r: Option<usize>)
    ensures
        match r {
            Some(k) => find_at(s@, pat@, 0) == Some(k as int),
            None => find_at(s@, pat@, 0) is None,
        },
{
    let n = s.unicode_len();
    let m = pat.unicode_len();
    if m > n {
        return None;
    }
    if m == 0 {
        assert(s@.subrange(0, 0) =~= pat@);
        return Some(0);
    }
    let mut i: usize = 0;
    while i <= n - m
        invariant
            n == s@.len(),
            m == pat@.len(),
            1 <= m <= n,
            0 <= i <= n - m + 1,
            find_at(s@, pat@, 0) == find_at(s@, pat@, i as int),
        decreases n - i,
    {
        if match_at(s, pat, i, n, m) {
            return Some(i);
        }
        i = i + 1;
    }
    None
}

/// Decides `char_idx(s, c, from)` on a string slice.
pub fn find_char(s: &str, c: char, from: usize) -> (r: usize)
    requires
        from <= s@.len(),
    ensures
        r as int == char_idx(s@, c, from as int),
        from <= r <= s@.len(),
{
    let n = s.unicode_len();
    let mut i: usize = from;
    while i < n
        invariant
            n == s@.len(),
            from <= i <= n,
            char_idx(s@, c, from as int) == char_idx(s@, c, i as int),
        decreases n - i,
    {
        if s.get_char(i) == c {
            return i;
        }
        i = i + 1;
    }
    n
}

/// Case-insensitive equality of two characters, folding ASCII letters only.
pub open spec fn ci_char_eq(x: char, y: char) -> bool {
    let u = x as u32;
    let v = y as u32;
    u == v || (0x41 <= u && u <= 0x5A && v == u + 0x20) || (0x41 <= v && v <= 0x5A && u == v
        + 0x20)
}

/// What `str::eq_ignore_ascii_case` decides.
pub open spec fn eq_ignore_ascii(a: Seq<char>, b: Seq<char>) -> bool {
    a.len() == b.len() && forall|i: int| 0 <= i < a.len() ==> ci_char_eq(#[trigger] a[i], b[i])
}

fn ci_char_eq_exec(x: char, y: char) -> (r: bool)
    ensures
        r == ci_char_eq(x, y),
{
    let u = x as u32;
    let v = y as u32;
    u == v || (0x41 <= u && u <= 0x5A && v == u + 0x20) || (0x41 <= v && v <= 0x5A && u == v
        + 0x20)
}

/// Decides `eq_ignore_ascii` on string slices.
pub fn str_eq_ci(a: &str, b: &str) -> (r: bool)
    ensures
        r == eq_ignore_ascii(a@, b@),
{
    let na = a.unicode_len();
    let nb = b.unicode_len();
    if na != nb {
        return false;
    }
    let mut i: usize = 0;
    while i < na
        invariant
            na == a@.len(),
            na == b@.len(),
            0 <= i <= na,
            forall|j: int| 0 <= j < i ==> ci_char_eq(#[trigger] a@[j], b@[j]),
        decreases na - i,
    {
        if !ci_char_eq_exec(a.get_char(i), b.get_char(i)) {
            return false;
        }
        i = i + 1;
    }
    true
}

} // verus!
