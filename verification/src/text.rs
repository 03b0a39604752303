//! Verified text machinery: URL path extraction for derived request names,
//! and the store's prefix/token search semantics.
//!
//! Search tokenizes a text into maximal runs of ASCII alphanumeric
//! characters, case-folded to lower case; all other characters separate
//! tokens. A query matches a text when, after stripping embedded quote
//! characters, its tokens occur consecutively in the text's tokens, the last
//! query token as a prefix (the appended wildcard). An empty or
//! delimiter-only query matches nothing.
use vstd::prelude::*;
use vstd::string::StrSliceExecFns;

verus! {

// ---------------------------------------------------------------------------
// Characters
// ---------------------------------------------------------------------------

/// A character that belongs to a search token.
pub open spec fn is_token_char(c: char) -> bool {
    ('a' <= c && c <= 'z') || ('A' <= c && c <= 'Z') || ('0' <= c && c <= '9')
}

fn is_token_char_x(c: char) -> (r: bool)
    ensures
        r == is_token_char(c),
{
    ('a' <= c && c <= 'z') || ('A' <= c && c <= 'Z') || ('0' <= c && c <= '9')
}

/// The code point of `c`, with ASCII upper-case letters folded to lower
/// case.
pub open spec fn fold_char(c: char) -> u32 {
    if 'A' <= c && c <= 'Z' {
        (c as u32 + 32) as u32
    } else {
        c as u32
    }
}

fn fold_char_x(c: char) -> (r: u32)
    ensures
        r == fold_char(c),
{
    let x = c as u32;
    if 65 <= x && x <= 90 {
        x + 32
    } else {
        x
    }
}

/// The case-folded code points of a text.
pub open spec fn folded(s: Seq<char>) -> Seq<u32> {
    s.map(|i: int, c: char| fold_char(c))
}

/// Whether two texts are equal up to ASCII case.
pub fn eq_folded(a: &str, b: &str) -> (r: bool)
    ensures
        r == (folded(a@) == folded(b@)),
{
    let ac = chars_of(a);
    let bc = chars_of(b);
    if ac.len() != bc.len() {
        proof {
            assert(folded(a@).len() != folded(b@).len());
        }
        return false;
    }
    let n = ac.len();
    let mut i: usize = 0;
    while i < n
        invariant
            n == ac@.len() == bc@.len(),
            ac@ == a@,
            bc@ == b@,
            i <= n,
            forall|j: int| 0 <= j < i ==> fold_char(a@[j]) == fold_char(b@[j]),
        decreases n - i,
    {
        if fold_char_x(ac[i]) != fold_char_x(bc[i]) {
            proof {
                assert(folded(a@)[i as int] != folded(b@)[i as int]);
            }
            return false;
        }
        i = i + 1;
    }
    proof {
        assert(folded(a@) =~= folded(b@));
    }
    true
}

/// Whether two texts hold the same characters.
pub fn str_eq(a: &str, b: &str) -> (r: bool)
    ensures
        r == (a@ == b@),
{
    let ac = chars_of(a);
    let bc = chars_of(b);
    if ac.len() != bc.len() {
        return false;
    }
    let n = ac.len();
    let mut i: usize = 0;
    while i < n
        invariant
            n == ac@.len() == bc@.len(),
            ac@ == a@,
            bc@ == b@,
            i <= n,
            forall|j: int| 0 <= j < i ==> a@[j] == b@[j],
        decreases n - i,
    {
        if ac[i] != bc[i] {
            return false;
        }
        i = i + 1;
    }
    proof {
        assert(a@ =~= b@);
    }
    true
}

/// The characters of `s`, as a vector.
pub fn chars_of(s: &str) -> (r: Vec<char>)
    ensures
        r@ == s@,
{
    let n = s.unicode_len();
    let mut r: Vec<char> = Vec::new();
    let mut i: usize = 0;
    while i < n
        invariant
            n == s@.len(),
            i <= n,
            r@ == s@.subrange(0, i as int),
        decreases n - i,
    {
        r.push(s.get_char(i));
        proof {
            assert(r@ =~= s@.subrange(0, i + 1));
        }
        i = i + 1;
    }
    proof {
        assert(s@.subrange(0, s@.len() as int) =~= s@);
    }
    r
}

// ---------------------------------------------------------------------------
// Tokenization
// ---------------------------------------------------------------------------

/// The end of the token run that starts at `i`: the first position at or
/// after `i` that does not hold a token character.
pub open spec fn tok_end(s: Seq<char>, i: int) -> int
    decreases s.len() - i when 0 <= i <= s.len()
{
    if i < s.len() && is_token_char(s[i]) {
        tok_end(s, i + 1)
    } else {
        i
    }
}

pub proof fn lemma_tok_end_bounds(s: Seq<char>, i: int)
    requires
        0 <= i <= s.len(),
    ensures
        i <= tok_end(s, i) <= s.len(),
        i < s.len() && is_token_char(s[i]) ==> i + 1 <= tok_end(s, i),
    decreases s.len() - i,
{
    if i < s.len() && is_token_char(s[i]) {
        lemma_tok_end_bounds(s, i + 1);
    }
}

/// If every position in `[a, b)` holds a token character and `b` is the end
/// of the text or a delimiter, the token run starting at `a` ends at `b`.
proof fn lemma_tok_end_run(s: Seq<char>, a: int, b: int)
    requires
        0 <= a <= b <= s.len(),
        forall|k: int| a <= k < b ==> is_token_char(s[k]),
        b == s.len() || !is_token_char(s[b]),
    ensures
        tok_end(s, a) == b,
    decreases b - a,
{
    if a < b {
        lemma_tok_end_run(s, a + 1, b);
    }
}

/// The folded token that starts at position `i`.
pub open spec fn token_at(s: Seq<char>, i: int) -> Seq<u32> {
    s.subrange(i, tok_end(s, i)).map(|j: int, c: char| fold_char(c))
}

/// The tokens of `s` from position `i` on.
pub open spec fn tokens_from(s: Seq<char>, i: int) -> Seq<Seq<u32>>
    decreases s.len() - i when 0 <= i <= s.len() via tokens_from_dec
{
    if i >= s.len() {
        Seq::<Seq<u32>>::empty()
    } else if !is_token_char(s[i]) {
        tokens_from(s, i + 1)
    } else {
        seq![token_at(s, i)] + tokens_from(s, tok_end(s, i))
    }
}

#[via_fn]
proof fn tokens_from_dec(s: Seq<char>, i: int) {
    if 0 <= i < s.len() && is_token_char(s[i]) {
        lemma_tok_end_bounds(s, i);
    }
}

/// The search tokens of a text.
pub open spec fn tokens(s: Seq<char>) -> Seq<Seq<u32>> {
    tokens_from(s, 0)
}

/// The views of a vector of token vectors.
pub open spec fn tok_views(ts: Seq<Vec<u32>>) -> Seq<Seq<u32>> {
    ts.map(|i: int, t: Vec<u32>| t@)
}

/// Splits a text into its folded search tokens.
pub fn tokenize_chars(cs: &Vec<char>) -> (r: Vec<Vec<u32>>)
    ensures
        tok_views(r@) == tokens(cs@),
{
    let ghost s = cs@;
    let n = cs.len();
    let mut out: Vec<Vec<u32>> = Vec::new();
    let mut i: usize = 0;
    proof {
        assert(tok_views(out@) =~= Seq::<Seq<u32>>::empty());
        assert(Seq::<Seq<u32>>::empty() + tokens_from(s, 0) =~= tokens_from(s, 0));
    }
    while i < n
        invariant
            n == s.len(),
            cs@ == s,
            i <= n,
            tokens(s) == tok_views(out@) + tokens_from(s, i as int),
        decreases n - i,
    {
        if !is_token_char_x(cs[i]) {
            proof {
                assert(tokens_from(s, i as int) == tokens_from(s, i + 1));
            }
            i = i + 1;
        } else {
            let ghost start = i as int;
            let ghost prev = out@;
            let mut tok: Vec<u32> = Vec::new();
            while i < n && is_token_char_x(cs[i])
                invariant
                    n == s.len(),
                    cs@ == s,
                    start <= i as int <= n,
                    forall|k: int| start <= k < i as int ==> is_token_char(s[k]),
                    tok@.len() == i as int - start,
                    forall|k: int| 0 <= k < tok@.len() ==> tok@[k] == fold_char(s[start + k]),
                decreases n - i,
            {
                tok.push(fold_char_x(cs[i]));
                i = i + 1;
            }
            proof {
                lemma_tok_end_run(s, start, i as int);
                assert(token_at(s, start) =~= tok@);
                assert(tokens_from(s, start) == seq![token_at(s, start)] + tokens_from(
                    s,
                    i as int,
                ));
            }
            out.push(tok);
            proof {
                assert(tok_views(out@) =~= tok_views(prev).push(tok@));
                assert(tok_views(prev) + (seq![tok@] + tokens_from(s, i as int)) =~= tok_views(
                    out@,
                ) + tokens_from(s, i as int));
            }
        }
    }
    proof {
        assert(tokens_from(s, n as int) =~= Seq::<Seq<u32>>::empty());
        assert(tok_views(out@) + tokens_from(s, n as int) =~= tok_views(out@));
    }
    out
}

/// Splits a text into its folded search tokens.
pub fn tokenize(s: &str) -> (r: Vec<Vec<u32>>)
    ensures
        tok_views(r@) == tokens(s@),
{
    let cs = chars_of(s);
    tokenize_chars(&cs)
}

// ---------------------------------------------------------------------------
// Queries
// ---------------------------------------------------------------------------

/// `q` with every embedded quote character removed.
pub open spec fn strip_quotes(q: Seq<char>) -> Seq<char>
    decreases q.len(),
{
    if q.len() == 0 {
        Seq::<char>::empty()
    } else if q.last() == '"' {
        strip_quotes(q.drop_last())
    } else {
        strip_quotes(q.drop_last()).push(q.last())
    }
}

/// The token phrase of a raw query: quotes stripped, then tokenized.
pub open spec fn phrase_of(q: Seq<char>) -> Seq<Seq<u32>> {
    tokens(strip_quotes(q))
}

/// Prepares a raw query for matching: strips quotes and tokenizes.
pub fn phrase_of_x(q: &str) -> (r: Vec<Vec<u32>>)
    ensures
        tok_views(r@) == phrase_of(q@),
{
    let cs = chars_of(q);
    let n = cs.len();
    let mut stripped: Vec<char> = Vec::new();
    let mut i: usize = 0;
    while i < n
        invariant
            n == q@.len(),
            cs@ == q@,
            i <= n,
            stripped@ == strip_quotes(q@.subrange(0, i as int)),
        decreases n - i,
    {
        proof {
            assert(q@.subrange(0, i + 1).drop_last() =~= q@.subrange(0, i as int));
            assert(q@.subrange(0, i + 1).last() == q@[i as int]);
        }
        if cs[i] != '"' {
            stripped.push(cs[i]);
        }
        i = i + 1;
    }
    proof {
        assert(q@.subrange(0, n as int) =~= q@);
    }
    tokenize_chars(&stripped)
}

// ---------------------------------------------------------------------------
// Matching
// ---------------------------------------------------------------------------

/// `p` is a prefix of `t`.
pub open spec fn is_prefix(p: Seq<u32>, t: Seq<u32>) -> bool {
    p.len() <= t.len() && p == t.subrange(0, p.len() as int)
}

fn is_prefix_x(p: &Vec<u32>, t: &Vec<u32>) -> (r: bool)
    ensures
        r == is_prefix(p@, t@),
{
    if p.len() > t.len() {
        return false;
    }
    let n = p.len();
    let mut i: usize = 0;
    while i < n
        invariant
            n == p@.len() <= t@.len(),
            i <= n,
            forall|j: int| 0 <= j < i ==> p@[j] == t@[j],
        decreases n - i,
    {
        if p[i] != t[i] {
            proof {
                assert(t@.subrange(0, p@.len() as int)[i as int] == t@[i as int]);
            }
            return false;
        }
        i = i + 1;
    }
    proof {
        assert(p@ =~= t@.subrange(0, p@.len() as int));
    }
    true
}

fn tokens_eq(a: &Vec<u32>, b: &Vec<u32>) -> (r: bool)
    ensures
        r == (a@ == b@),
{
    if a.len() != b.len() {
        return false;
    }
    let n = a.len();
    let mut i: usize = 0;
    while i < n
        invariant
            n == a@.len() == b@.len(),
            i <= n,
            forall|j: int| 0 <= j < i ==> a@[j] == b@[j],
        decreases n - i,
    {
        if a[i] != b[i] {
            return false;
        }
        i = i + 1;
    }
    proof {
        assert(a@ =~= b@);
    }
    true
}

/// The phrase `ph` matches the token list `toks` at position `k`: all of its
/// tokens but the last occur there verbatim and consecutively, and the last
/// is a prefix of the following token.
pub open spec fn phrase_matches_at(toks: Seq<Seq<u32>>, ph: Seq<Seq<u32>>, k: int) -> bool {
    &&& ph.len() > 0
    &&& 0 <= k
    &&& k + ph.len() <= toks.len()
    &&& forall|j: int| 0 <= j < ph.len() - 1 ==> toks[k + j] == ph[j]
    &&& is_prefix(ph[ph.len() - 1], toks[k + ph.len() - 1])
}

/// The phrase `ph` matches the token list `toks` somewhere. An empty phrase
/// matches nothing.
pub open spec fn toks_match(toks: Seq<Seq<u32>>, ph: Seq<Seq<u32>>) -> bool {
    exists|k: int| phrase_matches_at(toks, ph, k)
}

fn match_at(toks: &Vec<Vec<u32>>, ph: &Vec<Vec<u32>>, k: usize) -> (r: bool)
    requires
        ph@.len() > 0,
        k + ph@.len() <= toks@.len(),
    ensures
        r == phrase_matches_at(tok_views(toks@), tok_views(ph@), k as int),
{
    let tn = toks.len();
    let pn = ph.len();
    let last = pn - 1;
    let mut j: usize = 0;
    while j < last
        invariant
            tn == toks@.len(),
            pn == ph@.len(),
            pn > 0,
            last == pn - 1,
            k + pn <= tn,
            j <= last,
            forall|l: int| 0 <= l < j ==> tok_views(toks@)[k + l] == tok_views(ph@)[l],
        decreases last - j,
    {
        if !tokens_eq(&toks[k + j], &ph[j]) {
            proof {
                assert(tok_views(toks@)[k as int + j as int] == toks@[k as int + j as int]@);
                assert(tok_views(ph@)[j as int] == ph@[j as int]@);
            }
            return false;
        }
        j = j + 1;
    }
    proof {
        assert(tok_views(ph@)[pn - 1] == ph@[pn - 1]@);
        assert(tok_views(toks@)[k as int + pn - 1] == toks@[k as int + pn - 1]@);
    }
    is_prefix_x(&ph[last], &toks[k + last])
}

/// Whether the prepared phrase matches the token list.
pub fn toks_match_x(toks: &Vec<Vec<u32>>, ph: &Vec<Vec<u32>>) -> (r: bool)
    ensures
        r == toks_match(tok_views(toks@), tok_views(ph@)),
{
    if ph.len() == 0 || ph.len() > toks.len() {
        proof {
            assert(forall|k: int| !phrase_matches_at(tok_views(toks@), tok_views(ph@), k));
        }
        return false;
    }
    let tn = toks.len();
    let pn = ph.len();
    let bound = tn - pn;
    let mut k: usize = 0;
    while k <= bound
        invariant
            tn == toks@.len(),
            pn == ph@.len(),
            pn > 0,
            bound == tn - pn,
            k <= bound + 1,
            forall|l: int| 0 <= l < k ==> !phrase_matches_at(tok_views(toks@), tok_views(ph@), l),
        decreases bound + 1 - k,
    {
        if match_at(toks, ph, k) {
            return true;
        }
        k = k + 1;
    }
    proof {
        assert(forall|l: int| !phrase_matches_at(tok_views(toks@), tok_views(ph@), l));
    }
    false
}

/// The prepared query phrase `ph` matches the text `s`.
pub open spec fn text_matches_phrase(s: Seq<char>, ph: Seq<Seq<u32>>) -> bool {
    toks_match(tokens(s), ph)
}

/// The raw query `q` matches the text `s`.
pub open spec fn text_matches(s: Seq<char>, q: Seq<char>) -> bool {
    text_matches_phrase(s, phrase_of(q))
}

/// Whether the prepared phrase matches the text.
pub fn text_matches_x(s: &str, ph: &Vec<Vec<u32>>) -> (r: bool)
    ensures
        r == text_matches_phrase(s@, tok_views(ph@)),
{
    let toks = tokenize(s);
    toks_match_x(&toks, ph)
}

// ---------------------------------------------------------------------------
// URL path extraction
// ---------------------------------------------------------------------------

/// The first position at or after `i` where the scheme separator `://`
/// starts.
pub open spec fn find_scheme_from(s: Seq<char>, i: int) -> Option<int>
    decreases s.len() - i when 0 <= i
{
    if i + 3 > s.len() {
        Option::<int>::None
    } else if s[i] == ':' && s[i + 1] == '/' && s[i + 2] == '/' {
        Option::Some(i)
    } else {
        find_scheme_from(s, i + 1)
    }
}

/// The first position at or after `i` that holds a slash.
pub open spec fn find_slash_from(s: Seq<char>, i: int) -> Option<int>
    decreases s.len() - i when 0 <= i
{
    if i >= s.len() {
        Option::<int>::None
    } else if s[i] == '/' {
        Option::Some(i)
    } else {
        find_slash_from(s, i + 1)
    }
}

/// The path component of a URL: the suffix that starts at the first slash
/// after the first `://`. A URL without a scheme separator or without a
/// path is returned unchanged.
pub open spec fn extract_path_spec(s: Seq<char>) -> Seq<char> {
    match find_scheme_from(s, 0) {
        Option::None => s,
        Option::Some(i) => match find_slash_from(s, i + 3) {
            Option::None => s,
            Option::Some(j) => s.subrange(j, s.len() as int),
        },
    }
}

/// Returns the path component of `url`, or `url` itself when it has no
/// scheme separator or no path after it.
pub fn extract_path<'a>(url: &'a str) -> (r: &'a str)
    ensures
        r@ == extract_path_spec(url@),
{
    let cs = chars_of(url);
    let n = cs.len();
    let mut i: usize = 0;
    loop
        invariant
            n == url@.len(),
            cs@ == url@,
            i <= n,
            find_scheme_from(url@, 0) == find_scheme_from(url@, i as int),
        decreases n - i,
    {
        if n < 3 || i > n - 3 {
            proof {
                assert(i as int + 3 > url@.len());
                assert(find_scheme_from(url@, i as int) is None);
            }
            return url;
        }
        if cs[i] == ':' && cs[i + 1] == '/' && cs[i + 2] == '/' {
            proof {
                assert(find_scheme_from(url@, i as int) == Option::Some(i as int));
            }
            let mut j: usize = i + 3;
            while j < n
                invariant
                    n == url@.len(),
                    cs@ == url@,
                    i + 3 <= j,
                    j <= n,
                    find_scheme_from(url@, 0) == Option::Some(i as int),
                    find_slash_from(url@, i as int + 3) == find_slash_from(url@, j as int),
                decreases n - j,
            {
                if cs[j] == '/' {
                    proof {
                        assert(find_slash_from(url@, j as int) == Option::Some(j as int));
                    }
                    return url.substring_char(j, n);
                }
                j = j + 1;
            }
            proof {
                assert(find_slash_from(url@, j as int) is None);
            }
            return url;
        }
        i = i + 1;
    }
}

} // verus!
