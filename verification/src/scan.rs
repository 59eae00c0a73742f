//! Character classes and low-level text scanners shared by the header
//! grammar: skipping whitespace, finding line ends, and reading runs of
//! alphabetic characters.

use vstd::prelude::*;

verus! {

/// A space or tab: the only separators the per-line grammar accepts.
pub open spec fn is_space(c: char) -> bool {
    c == ' ' || c == '\t'
}

/// ASCII whitespace, the characters a blank line before the header block
/// may consist of.
pub open spec fn is_blank(c: char) -> bool {
    is_space(c) || c == '\n' || c == '\r' || c == '\u{B}' || c == '\u{C}'
}

/// An ASCII letter: the only characters a library or package name may hold.
pub open spec fn is_alpha(c: char) -> bool {
    ('a' <= c && c <= 'z') || ('A' <= c && c <= 'Z')
}

/// First position at or after `i` holding a character other than space or
/// tab, but no further than `m`.
pub open spec fn spp(s: Seq<char>, i: int, m: int) -> int
    decreases m - i,
{
    if i >= m {
        i
    } else if is_space(s[i]) {
        spp(s, i + 1, m)
    } else {
        i
    }
}

/// First position at or after `i` holding a newline, or the length of `s`
/// if there is none.
pub open spec fn nlp(s: Seq<char>, i: int) -> int
    decreases s.len() - i,
{
    if i >= s.len() {
        s.len() as int
    } else if s[i] == '\n' {
        i
    } else {
        nlp(s, i + 1)
    }
}

/// First position at or after `i` holding a non-whitespace character, or
/// the length of `s` if there is none.
pub open spec fn wsp(s: Seq<char>, i: int) -> int
    decreases s.len() - i,
{
    if i >= s.len() {
        s.len() as int
    } else if is_blank(s[i]) {
        wsp(s, i + 1)
    } else {
        i
    }
}

/// End of the run of alphabetic characters starting at `i`, bounded by `m`.
pub open spec fn alp(s: Seq<char>, i: int, m: int) -> int
    decreases m - i,
{
    if i >= m {
        i
    } else if is_alpha(s[i]) {
        alp(s, i + 1, m)
    } else {
        i
    }
}

/// The text holds `pat` starting at position `i`.
pub open spec fn kw_at(s: Seq<char>, i: int, pat: Seq<char>) -> bool {
    0 <= i && i + pat.len() <= s.len() && s.subrange(i, i + pat.len()) == pat
}

pub proof fn lemma_spp_ge(s: Seq<char>, i: int, m: int)
    ensures
        spp(s, i, m) >= i,
    decreases m - i,
{
    if i < m && is_space(s[i]) {
        lemma_spp_ge(s, i + 1, m);
    }
}

pub proof fn lemma_spp_bounds(s: Seq<char>, i: int, m: int)
    requires
        i <= m,
    ensures
        i <= spp(s, i, m) <= m,
    decreases m - i,
{
    if i < m && is_space(s[i]) {
        lemma_spp_bounds(s, i + 1, m);
    }
}

pub proof fn lemma_nlp_bounds(s: Seq<char>, i: int)
    requires
        0 <= i <= s.len(),
    ensures
        i <= nlp(s, i) <= s.len(),
        nlp(s, i) < s.len() ==> s[nlp(s, i)] == '\n',
    decreases s.len() - i,
{
    if i < s.len() && s[i] != '\n' {
        lemma_nlp_bounds(s, i + 1);
    }
}

pub proof fn lemma_wsp_bounds(s: Seq<char>, i: int)
    requires
        0 <= i <= s.len(),
    ensures
        i <= wsp(s, i) <= s.len(),
        wsp(s, i) < s.len() ==> !is_blank(s[wsp(s, i)]),
    decreases s.len() - i,
{
    if i < s.len() && is_blank(s[i]) {
        lemma_wsp_bounds(s, i + 1);
    }
}

pub proof fn lemma_alp_bounds(s: Seq<char>, i: int, m: int)
    requires
        i <= m,
    ensures
        i <= alp(s, i, m) <= m,
    decreases m - i,
{
    if i < m && is_alpha(s[i]) {
        lemma_alp_bounds(s, i + 1, m);
    }
}

/// An alphabetic run that reaches exactly to `e` makes `alp` stop there.
pub proof fn lemma_alp_run(s: Seq<char>, j: int, e: int, m: int)
    requires
        0 <= j <= e <= m <= s.len(),
        forall|k: int| j <= k < e ==> is_alpha(s[k]),
        e < m ==> !is_alpha(s[e]),
    ensures
        alp(s, j, m) == e,
    decreases e - j,
{
    if j < e {
        lemma_alp_run(s, j + 1, e, m);
    }
}

/// A newline at `p` with none before it makes `nlp` stop there.
pub proof fn lemma_nlp_run(s: Seq<char>, j: int, p: int)
    requires
        0 <= j <= p < s.len(),
        forall|k: int| j <= k < p ==> s[k] != '\n',
        s[p] == '\n',
    ensures
        nlp(s, j) == p,
    decreases p - j,
{
    if j < p {
        lemma_nlp_run(s, j + 1, p);
    }
}

/// Executable test for [`is_space`].
pub fn space_char(c: char) -> (b: bool)
    ensures
        b == is_space(c),
{
    c == ' ' || c == '\t'
}

/// Executable test for [`is_blank`].
pub fn blank_char(c: char) -> (b: bool)
    ensures
        b == is_blank(c),
{
    c == ' ' || c == '\t' || c == '\n' || c == '\r' || c == '\u{B}' || c == '\u{C}'
}

/// Executable test for [`is_alpha`].
pub fn alpha_char(c: char) -> (b: bool)
    ensures
        b == is_alpha(c),
{
    ('a' <= c && c <= 'z') || ('A' <= c && c <= 'Z')
}

/// Skips spaces and tabs from `i`, stopping at `m`.
pub fn skip_spaces(text: &str, i: usize, m: usize) -> (r: usize)
    requires
        i <= text@.len(),
        m <= text@.len(),
    ensures
        r == spp(text@, i as int, m as int),
        r >= i,
        i <= m ==> r <= m,
{
    proof {
        lemma_spp_ge(text@, i as int, m as int);
        if i <= m {
            lemma_spp_bounds(text@, i as int, m as int);
        }
    }
    if i >= m {
        return i;
    }
    let mut j = i;
    while j < m && space_char(text.get_char(j))
        invariant
            i <= j <= m,
            m <= text@.len(),
            spp(text@, i as int, m as int) == spp(text@, j as int, m as int),
        decreases m - j,
    {
        j = j + 1;
    }
    j
}

/// Finds the next newline at or after `i`, returning the text length if
/// there is none.
pub fn find_newline(text: &str, i: usize) -> (r: usize)
    requires
        i <= text@.len(),
    ensures
        r == nlp(text@, i as int),
        i <= r <= text@.len(),
{
    proof {
        lemma_nlp_bounds(text@, i as int);
    }
    let n = text.unicode_len();
    let mut j = i;
    while j < n && text.get_char(j) != '\n'
        invariant
            i <= j <= n,
            n == text@.len(),
            nlp(text@, i as int) == nlp(text@, j as int),
        decreases n - j,
    {
        j = j + 1;
    }
    j
}

/// Skips ASCII whitespace from `i`.
pub fn skip_blanks(text: &str, i: usize) -> (r: usize)
    requires
        i <= text@.len(),
    ensures
        r == wsp(text@, i as int),
        i <= r <= text@.len(),
{
    proof {
        lemma_wsp_bounds(text@, i as int);
    }
    let n = text.unicode_len();
    let mut j = i;
    while j < n && blank_char(text.get_char(j))
        invariant
            i <= j <= n,
            n == text@.len(),
            wsp(text@, i as int) == wsp(text@, j as int),
        decreases n - j,
    {
        j = j + 1;
    }
    j
}

/// Finds the end of the alphabetic run starting at `i`, stopping at `m`.
pub fn alpha_end(text: &str, i: usize, m: usize) -> (r: usize)
    requires
        i <= m,
        m <= text@.len(),
    ensures
        r == alp(text@, i as int, m as int),
        i <= r <= m,
{
    proof {
        lemma_alp_bounds(text@, i as int, m as int);
    }
    let mut j = i;
    while j < m && alpha_char(text.get_char(j))
        invariant
            i <= j <= m,
            m <= text@.len(),
            alp(text@, i as int, m as int) == alp(text@, j as int, m as int),
        decreases m - j,
    {
        j = j + 1;
    }
    j
}

/// Compares the text at position `i` against `pat`, character by character.
pub fn starts_with_at(text: &str, i: usize, pat: &str) -> (b: bool)
    requires
        i <= text@.len(),
    ensures
        b == kw_at(text@, i as int, pat@),
{
    let n = text.unicode_len();
    let pl = pat.unicode_len();
    if pl > n - i {
        return false;
    }
    let mut k: usize = 0;
    while k < pl
        invariant
            0 <= k <= pl,
            i + pl <= n,
            n == text@.len(),
            pl == pat@.len(),
            forall|t: int| 0 <= t < k ==> text@[i + t] == pat@[t],
        decreases pl - k,
    {
        if text.get_char(i + k) != pat.get_char(k) {
            proof {
                assert(text@.subrange(i as int, i + pat@.len())[k as int] == text@[i + k]);
            }
            return false;
        }
        k = k + 1;
    }
    proof {
        assert(text@.subrange(i as int, i + pat@.len()) =~= pat@);
    }
    true
}

} // verus!
