//! The header grammar and its extractor.
//!
//! A header is a contiguous run of `%%` comment lines at the start of the
//! input, preceded by at most blank lines.  Each header line holds zero or
//! more declarations, `tikzlibrary: a, b` or `package: c`, separated by
//! spaces; names are runs of ASCII letters.  Declarations accumulate into a
//! [`Header`] in source order.  A line whose content does not parse
//! abandons the rest of the header: the block is still consumed, but no
//! further line contributes declarations.

use vstd::prelude::*;

use crate::scan::{
    alp, alpha_end, find_newline, is_alpha, is_space, kw_at, lemma_alp_bounds, lemma_alp_run,
    lemma_nlp_bounds, lemma_nlp_run, lemma_spp_bounds, lemma_spp_ge, lemma_wsp_bounds, nlp,
    skip_blanks, skip_spaces, space_char, spp, starts_with_at, wsp,
};

verus! {

use vstd::string::StrSliceExecFns;
use vstd::string::StringExecFns;

/// The views of a sequence of owned strings.
pub open spec fn str_views(v: Seq<String>) -> Seq<Seq<char>> {
    Seq::new(v.len(), |k: int| v[k]@)
}

/// The declarations extracted from the leading comment block: TikZ library
/// names and LaTeX package names, each in source order.
#[derive(Debug, PartialEq, Eq)]
pub struct Header {
    pub tikz_library: Vec<String>,
    pub package: Vec<String>,
}

impl Header {
    /// A header with no declarations.
    pub fn new() -> (h: Header)
        ensures
            h.tikz_library@ == Seq::<String>::empty(),
            h.package@ == Seq::<String>::empty(),
    {
        Header { tikz_library: Vec::new(), package: Vec::new() }
    }
}

/// The keyword that declares a TikZ library.
pub open spec fn lib_kw() -> Seq<char> {
    "tikzlibrary"@
}

/// The keyword that declares a LaTeX package.
pub open spec fn pkg_kw() -> Seq<char> {
    "package"@
}

/// Parses a comma-separated list of one or more names inside `[j, m)`.
/// Returns success, the names in order, and the position after the list.
/// A comma not followed by a further name is left unconsumed, ending the
/// list; only an empty first name fails.
pub open spec fn parse_names(s: Seq<char>, j: int, m: int) -> (bool, Seq<Seq<char>>, int)
    decreases m - j via parse_names_dec
{
    let a = alp(s, j, m);
    if a <= j {
        (false, Seq::empty(), j)
    } else {
        let name = s.subrange(j, a);
        if a < m && s[a] == ',' {
            let b = spp(s, a + 1, m);
            if alp(s, b, m) > b {
                let r = parse_names(s, b, m);
                (r.0, seq![name] + r.1, r.2)
            } else {
                (true, seq![name], a)
            }
        } else {
            (true, seq![name], a)
        }
    }
}

#[via_fn]
proof fn parse_names_dec(s: Seq<char>, j: int, m: int) {
    let a = alp(s, j, m);
    if a > j && a < m && s[a] == ',' {
        lemma_spp_bounds(s, a + 1, m);
    }
}

/// Parses what follows a recognized keyword: optional spaces, a colon,
/// optional spaces, then a name list.
pub open spec fn parse_tail(s: Seq<char>, j: int, m: int) -> (bool, Seq<Seq<char>>, int) {
    let j2 = spp(s, j, m);
    if j2 < m && s[j2] == ':' {
        parse_names(s, spp(s, j2 + 1, m), m)
    } else {
        (false, Seq::empty(), j)
    }
}

/// Parses one declaration at `j`.  Returns success, whether the keyword was
/// `tikzlibrary`, the names, and the position after the declaration.
pub open spec fn parse_decl(s: Seq<char>, j: int, m: int) -> (bool, bool, Seq<Seq<char>>, int) {
    if kw_at(s, j, lib_kw()) {
        let t = parse_tail(s, j + lib_kw().len(), m);
        (t.0, true, t.1, t.2)
    } else if kw_at(s, j, pkg_kw()) {
        let t = parse_tail(s, j + pkg_kw().len(), m);
        (t.0, false, t.1, t.2)
    } else {
        (false, false, Seq::empty(), j)
    }
}

proof fn lemma_names_end(s: Seq<char>, j: int, m: int)
    ensures
        parse_names(s, j, m).0 ==> j < parse_names(s, j, m).2 <= m,
    decreases m - j,
{
    let a = alp(s, j, m);
    if a > j {
        lemma_alp_bounds(s, j, m);
        if a < m && s[a] == ',' {
            let b = spp(s, a + 1, m);
            if alp(s, b, m) > b {
                lemma_spp_bounds(s, a + 1, m);
                lemma_names_end(s, b, m);
            }
        }
    }
}

proof fn lemma_decl_end(s: Seq<char>, j: int, m: int)
    ensures
        parse_decl(s, j, m).0 ==> j < parse_decl(s, j, m).3 <= m,
{
    reveal_strlit("tikzlibrary");
    reveal_strlit("package");
    if kw_at(s, j, lib_kw()) {
        lemma_tail_end(s, j + lib_kw().len(), m, j);
    } else if kw_at(s, j, pkg_kw()) {
        lemma_tail_end(s, j + pkg_kw().len(), m, j);
    }
}

proof fn lemma_tail_end(s: Seq<char>, j: int, m: int, j0: int)
    requires
        j0 < j,
    ensures
        parse_tail(s, j, m).0 ==> j0 < parse_tail(s, j, m).2 <= m,
{
    let j2 = spp(s, j, m);
    lemma_spp_ge(s, j, m);
    if j2 < m && s[j2] == ':' {
        let j3 = spp(s, j2 + 1, m);
        lemma_spp_bounds(s, j2 + 1, m);
        lemma_names_end(s, j3, m);
    }
}

/// Parses the declaration list of one line inside `[j, m)`: declarations
/// separated by runs of spaces, with trailing spaces allowed.  `j` must not
/// point at a space.  Returns success, the library names, and the package
/// names, each in source order.
pub open spec fn parse_decls(s: Seq<char>, j: int, m: int) -> (bool, Seq<Seq<char>>, Seq<Seq<char>>)
    decreases m - j via parse_decls_dec
{
    if j >= m {
        (true, Seq::empty(), Seq::empty())
    } else {
        let d = parse_decl(s, j, m);
        if !d.0 {
            (false, Seq::empty(), Seq::empty())
        } else {
            let dl: Seq<Seq<char>> = if d.1 { d.2 } else { Seq::empty() };
            let dp: Seq<Seq<char>> = if d.1 { Seq::empty() } else { d.2 };
            if d.3 >= m {
                (true, dl, dp)
            } else if !is_space(s[d.3]) {
                (false, Seq::empty(), Seq::empty())
            } else {
                let r = parse_decls(s, spp(s, d.3, m), m);
                (r.0, dl + r.1, dp + r.2)
            }
        }
    }
}

#[via_fn]
proof fn parse_decls_dec(s: Seq<char>, j: int, m: int) {
    if j < m {
        let d = parse_decl(s, j, m);
        if d.0 && d.3 < m && is_space(s[d.3]) {
            lemma_decl_end(s, j, m);
            lemma_spp_bounds(s, d.3, m);
        }
    }
}

/// A header line starts at `i`: `%%` followed either directly by a newline,
/// or by a space and then a newline further on.
pub open spec fn is_hline(s: Seq<char>, i: int) -> bool {
    &&& 0 <= i
    &&& i + 2 < s.len()
    &&& s[i] == '%'
    &&& s[i + 1] == '%'
    &&& (s[i + 2] == '\n' || s[i + 2] == ' ')
    &&& nlp(s, i + 2) < s.len()
}

/// The position just after the newline that ends the header line at `i`.
pub open spec fn hline_end(s: Seq<char>, i: int) -> int {
    nlp(s, i + 2) + 1
}

/// Parses the content of the header line at `i`: a bare `%%` line declares
/// nothing; otherwise the text between the space after `%%` and the newline
/// is parsed as a declaration list.
pub open spec fn line_parse(s: Seq<char>, i: int) -> (bool, Seq<Seq<char>>, Seq<Seq<char>>)
    recommends
        is_hline(s, i),
{
    if s[i + 2] == '\n' {
        (true, Seq::empty(), Seq::empty())
    } else {
        let m = nlp(s, i + 2);
        parse_decls(s, spp(s, i + 3, m), m)
    }
}

/// The position after the last of the consecutive header lines starting
/// at `i`.
pub open spec fn block_end(s: Seq<char>, i: int) -> int
    decreases s.len() - i via block_end_dec
{
    if is_hline(s, i) {
        block_end(s, hline_end(s, i))
    } else {
        i
    }
}

#[via_fn]
proof fn block_end_dec(s: Seq<char>, i: int) {
    if is_hline(s, i) {
        lemma_nlp_bounds(s, i + 2);
    }
}

/// The declarations of the block starting at `i`, line by line in source
/// order.  A line that fails to parse contributes nothing and abandons the
/// remaining lines.
pub open spec fn block_decls(s: Seq<char>, i: int) -> (Seq<Seq<char>>, Seq<Seq<char>>)
    decreases s.len() - i via block_decls_dec
{
    if !is_hline(s, i) {
        (Seq::empty(), Seq::empty())
    } else {
        let lp = line_parse(s, i);
        if !lp.0 {
            (Seq::empty(), Seq::empty())
        } else {
            let r = block_decls(s, hline_end(s, i));
            (lp.1 + r.0, lp.2 + r.1)
        }
    }
}

#[via_fn]
proof fn block_decls_dec(s: Seq<char>, i: int) {
    if is_hline(s, i) {
        lemma_nlp_bounds(s, i + 2);
    }
}

/// The extraction result on a whole text: the library names, the package
/// names, and the number of leading characters consumed as header.  The
/// block must start at the beginning of a line, with only blank lines
/// before it; otherwise nothing is consumed and the whole text is body.
pub open spec fn spec_extract(s: Seq<char>) -> (Seq<Seq<char>>, Seq<Seq<char>>, int) {
    let w = wsp(s, 0);
    if w > 0 && s[w - 1] != '\n' {
        (Seq::empty(), Seq::empty(), 0)
    } else if !is_hline(s, w) {
        (Seq::empty(), Seq::empty(), 0)
    } else {
        let d = block_decls(s, w);
        (d.0, d.1, block_end(s, w))
    }
}

pub proof fn lemma_block_end_bounds(s: Seq<char>, i: int)
    requires
        0 <= i <= s.len(),
    ensures
        i <= block_end(s, i) <= s.len(),
    decreases s.len() - i,
{
    if is_hline(s, i) {
        lemma_nlp_bounds(s, i + 2);
        lemma_block_end_bounds(s, hline_end(s, i));
    }
}

/// A text whose extraction consumes nothing yields no declarations either.
pub proof fn lemma_no_consume_no_decls(s: Seq<char>)
    requires
        spec_extract(s).2 == 0,
    ensures
        spec_extract(s).0 == Seq::<Seq<char>>::empty(),
        spec_extract(s).1 == Seq::<Seq<char>>::empty(),
{
    let w = wsp(s, 0);
    lemma_wsp_bounds(s, 0);
    if !(w > 0 && s[w - 1] != '\n') && is_hline(s, w) {
        lemma_nlp_bounds(s, w + 2);
        lemma_block_end_bounds(s, hline_end(s, w));
    }
}

/// The extracted header never reaches past the end of the text.
pub proof fn lemma_extract_bounds(s: Seq<char>)
    ensures
        0 <= spec_extract(s).2 <= s.len(),
{
    lemma_wsp_bounds(s, 0);
    let w = wsp(s, 0);
    if !(w > 0 && s[w - 1] != '\n') && is_hline(s, w) {
        lemma_block_end_bounds(s, w);
    }
}

/// Declarations keep their source order: the libraries of a block are the
/// libraries of its first line followed by those of the remaining lines,
/// and likewise for packages.
pub proof fn lemma_order_preservation(s: Seq<char>, i: int)
    requires
        is_hline(s, i),
        line_parse(s, i).0,
    ensures
        block_decls(s, i).0 == line_parse(s, i).1 + block_decls(s, hline_end(s, i)).0,
        block_decls(s, i).1 == line_parse(s, i).2 + block_decls(s, hline_end(s, i)).1,
{
}

/// A sequence of characters that can stand as a declared name: non-empty
/// and alphabetic throughout.
pub open spec fn valid_name(n: Seq<char>) -> bool {
    n.len() > 0 && forall|k: int| 0 <= k < n.len() ==> is_alpha(n[k])
}

/// A header line at `i` of the shape `%% tikzlibrary:` + `l1` + `,` + `l2`
/// + newline parses to exactly the two library names, in order.
proof fn lemma_line_two(s: Seq<char>, i: int, l1: Seq<char>, l2: Seq<char>)
    requires
        valid_name(l1),
        valid_name(l2),
        0 <= i,
        i + 16 + l1.len() + l2.len() < s.len(),
        s.subrange(i, i + 15) == "%% tikzlibrary:"@,
        s.subrange(i + 15, i + 15 + l1.len()) == l1,
        s[i + 15 + l1.len()] == ',',
        s.subrange(i + 16 + l1.len(), i + 16 + l1.len() + l2.len()) == l2,
        s[i + 16 + l1.len() + l2.len()] == '\n',
    ensures
        is_hline(s, i),
        hline_end(s, i) == i + 17 + l1.len() + l2.len(),
        line_parse(s, i) == (true, seq![l1, l2], Seq::<Seq<char>>::empty()),
{
    reveal_strlit("%% tikzlibrary:");
    reveal_strlit("tikzlibrary");
    let a = "%% tikzlibrary:"@;
    let ca = i + 15 + l1.len();
    let e = i + 16 + l1.len() + l2.len();
    assert forall|k: int| i <= k < i + 15 implies s[k] == a[k - i] by {
        assert(s.subrange(i, i + 15)[k - i] == s[k]);
    }
    assert forall|k: int| i + 15 <= k < ca implies s[k] == l1[k - (i + 15)] by {
        assert(s.subrange(i + 15, ca)[k - (i + 15)] == s[k]);
    }
    assert forall|k: int| ca + 1 <= k < e implies s[k] == l2[k - (ca + 1)] by {
        assert(s.subrange(ca + 1, e)[k - (ca + 1)] == s[k]);
    }
    assert forall|k: int| i + 2 <= k < e implies s[k] != '\n' by {
        if k < i + 15 {
        } else if k < ca {
            assert(is_alpha(s[k]));
        } else if k == ca {
        } else {
            assert(is_alpha(s[k]));
        }
    }
    lemma_nlp_run(s, i + 2, e);
    assert(is_hline(s, i));
    assert(spp(s, i + 3, e) == i + 3);
    assert(kw_at(s, i + 3, lib_kw())) by {
        assert(s.subrange(i + 3, i + 14) =~= lib_kw());
    }
    assert(spp(s, i + 14, e) == i + 14);
    assert(is_alpha(l1[0]) && s[i + 15] == l1[0]);
    assert(spp(s, i + 15, e) == i + 15);
    lemma_alp_run(s, i + 15, ca, e);
    assert(s.subrange(i + 15, ca) == l1);
    assert(is_alpha(l2[0]) && s[ca + 1] == l2[0]);
    assert(spp(s, ca + 1, e) == ca + 1);
    lemma_alp_run(s, ca + 1, e, e);
    assert(parse_names(s, ca + 1, e) == (true, seq![l2], e));
    assert(parse_names(s, i + 15, e) == (true, seq![l1] + seq![l2], e));
    assert(seq![l1] + seq![l2] =~= seq![l1, l2]);
    assert(parse_tail(s, i + 14, e) == (true, seq![l1, l2], e));
    assert(parse_decl(s, i + 3, e) == (true, true, seq![l1, l2], e));
    assert(parse_decls(s, i + 3, e) == (true, seq![l1, l2], Seq::<Seq<char>>::empty()));
    assert(line_parse(s, i) == (true, seq![l1, l2], Seq::<Seq<char>>::empty()));
}

/// A header line at `i` of the shape `%% tikzlibrary:` + `l` + newline
/// parses to exactly that one library name.
proof fn lemma_line_one(s: Seq<char>, i: int, l: Seq<char>)
    requires
        valid_name(l),
        0 <= i,
        i + 15 + l.len() < s.len(),
        s.subrange(i, i + 15) == "%% tikzlibrary:"@,
        s.subrange(i + 15, i + 15 + l.len()) == l,
        s[i + 15 + l.len()] == '\n',
    ensures
        is_hline(s, i),
        hline_end(s, i) == i + 16 + l.len(),
        line_parse(s, i) == (true, seq![l], Seq::<Seq<char>>::empty()),
{
    reveal_strlit("%% tikzlibrary:");
    reveal_strlit("tikzlibrary");
    let a = "%% tikzlibrary:"@;
    let e = i + 15 + l.len();
    assert forall|k: int| i <= k < i + 15 implies s[k] == a[k - i] by {
        assert(s.subrange(i, i + 15)[k - i] == s[k]);
    }
    assert forall|k: int| i + 15 <= k < e implies s[k] == l[k - (i + 15)] by {
        assert(s.subrange(i + 15, e)[k - (i + 15)] == s[k]);
    }
    assert forall|k: int| i + 2 <= k < e implies s[k] != '\n' by {
        if k >= i + 15 {
            assert(is_alpha(s[k]));
        }
    }
    lemma_nlp_run(s, i + 2, e);
    assert(is_hline(s, i));
    assert(spp(s, i + 3, e) == i + 3);
    assert(kw_at(s, i + 3, lib_kw())) by {
        assert(s.subrange(i + 3, i + 14) =~= lib_kw());
    }
    assert(spp(s, i + 14, e) == i + 14);
    assert(is_alpha(l[0]) && s[i + 15] == l[0]);
    assert(spp(s, i + 15, e) == i + 15);
    lemma_alp_run(s, i + 15, e, e);
    assert(s.subrange(i + 15, e) == l);
    assert(parse_names(s, i + 15, e) == (true, seq![l], e));
    assert(parse_tail(s, i + 14, e) == (true, seq![l], e));
    assert(parse_decl(s, i + 3, e) == (true, true, seq![l], e));
    assert(parse_decls(s, i + 3, e) == (true, seq![l], Seq::<Seq<char>>::empty()));
    assert(line_parse(s, i) == (true, seq![l], Seq::<Seq<char>>::empty()));
}

/// Header text that declares libraries `l1, l2` on one line and `l3` on
/// the next extracts to exactly the library sequence `l1, l2, l3`: source
/// order is kept across names, declarations, and lines.
#[verifier::rlimit(100)]
pub proof fn lemma_extract_library_lines(
    l1: Seq<char>,
    l2: Seq<char>,
    l3: Seq<char>,
    rest: Seq<char>,
)
    requires
        valid_name(l1),
        valid_name(l2),
        valid_name(l3),
        rest.len() == 0 || rest[0] != '%',
    ensures
        ({
            let s = "%% tikzlibrary:"@ + l1 + ","@ + l2 + "\n"@ + ("%% tikzlibrary:"@ + l3 + "\n"@
                + rest);
            &&& spec_extract(s).0 == seq![l1, l2, l3]
            &&& spec_extract(s).1 == Seq::<Seq<char>>::empty()
            &&& spec_extract(s).2 == s.len() - rest.len()
        }),
{
    reveal_strlit("%% tikzlibrary:");
    reveal_strlit(",");
    reveal_strlit("\n");
    let a = "%% tikzlibrary:"@;
    let s = a + l1 + ","@ + l2 + "\n"@ + (a + l3 + "\n"@ + rest);
    let n1 = l1.len() as int;
    let n2 = l2.len() as int;
    let n3 = l3.len() as int;
    let p = 17 + n1 + n2;
    let r0 = p + 16 + n3;
    assert(s.len() == r0 + rest.len());
    assert(s.subrange(0, 15) =~= a);
    assert(s.subrange(15, 15 + n1) =~= l1);
    assert(s[15 + n1] == ',');
    assert(s.subrange(16 + n1, 16 + n1 + n2) =~= l2);
    assert(s[16 + n1 + n2] == '\n');
    lemma_line_two(s, 0, l1, l2);
    assert(s.subrange(p, p + 15) =~= a);
    assert(s.subrange(p + 15, p + 15 + n3) =~= l3);
    assert(s[p + 15 + n3] == '\n');
    lemma_line_one(s, p, l3);
    assert(s[0] == '%');
    assert(wsp(s, 0) == 0);
    assert(hline_end(s, 0) == p);
    assert(hline_end(s, p) == r0);
    assert(!is_hline(s, r0)) by {
        if r0 + 2 < s.len() {
            assert(s[r0] == rest[0]);
        }
    }
    assert(block_end(s, r0) == r0);
    assert(block_end(s, p) == r0);
    assert(block_end(s, 0) == r0);
    assert(block_decls(s, r0) == (Seq::<Seq<char>>::empty(), Seq::<Seq<char>>::empty()));
    assert(block_decls(s, p).0 =~= seq![l3]);
    assert(block_decls(s, p).1 =~= Seq::<Seq<char>>::empty());
    assert(block_decls(s, 0).0 =~= seq![l1, l2, l3]);
    assert(block_decls(s, 0).1 =~= Seq::<Seq<char>>::empty());
}

/// A header line at `i` of the shape `%% package:` + `p1` + `,` + `p2`
/// + newline parses to exactly the two package names, in order.
proof fn lemma_line_two_pkg(s: Seq<char>, i: int, p1: Seq<char>, p2: Seq<char>)
    requires
        valid_name(p1),
        valid_name(p2),
        0 <= i,
        i + 12 + p1.len() + p2.len() < s.len(),
        s.subrange(i, i + 11) == "%% package:"@,
        s.subrange(i + 11, i + 11 + p1.len()) == p1,
        s[i + 11 + p1.len()] == ',',
        s.subrange(i + 12 + p1.len(), i + 12 + p1.len() + p2.len()) == p2,
        s[i + 12 + p1.len() + p2.len()] == '\n',
    ensures
        is_hline(s, i),
        hline_end(s, i) == i + 13 + p1.len() + p2.len(),
        line_parse(s, i) == (true, Seq::<Seq<char>>::empty(), seq![p1, p2]),
{
    reveal_strlit("%% package:");
    reveal_strlit("tikzlibrary");
    reveal_strlit("package");
    let a = "%% package:"@;
    let ca = i + 11 + p1.len();
    let e = i + 12 + p1.len() + p2.len();
    assert forall|k: int| i <= k < i + 11 implies s[k] == a[k - i] by {
        assert(s.subrange(i, i + 11)[k - i] == s[k]);
    }
    assert forall|k: int| i + 11 <= k < ca implies s[k] == p1[k - (i + 11)] by {
        assert(s.subrange(i + 11, ca)[k - (i + 11)] == s[k]);
    }
    assert forall|k: int| ca + 1 <= k < e implies s[k] == p2[k - (ca + 1)] by {
        assert(s.subrange(ca + 1, e)[k - (ca + 1)] == s[k]);
    }
    assert forall|k: int| i + 2 <= k < e implies s[k] != '\n' by {
        if i + 11 <= k < ca || ca + 1 <= k < e {
            assert(is_alpha(s[k]));
        }
    }
    lemma_nlp_run(s, i + 2, e);
    assert(is_hline(s, i));
    assert(spp(s, i + 3, e) == i + 3);
    assert(!kw_at(s, i + 3, lib_kw())) by {
        if kw_at(s, i + 3, lib_kw()) {
            assert(s.subrange(i + 3, i + 3 + lib_kw().len() as int)[0] == s[i + 3]);
        }
    }
    assert(kw_at(s, i + 3, pkg_kw())) by {
        assert(s.subrange(i + 3, i + 10) =~= pkg_kw());
    }
    assert(spp(s, i + 10, e) == i + 10);
    assert(is_alpha(p1[0]) && s[i + 11] == p1[0]);
    assert(spp(s, i + 11, e) == i + 11);
    lemma_alp_run(s, i + 11, ca, e);
    assert(s.subrange(i + 11, ca) == p1);
    assert(is_alpha(p2[0]) && s[ca + 1] == p2[0]);
    assert(spp(s, ca + 1, e) == ca + 1);
    lemma_alp_run(s, ca + 1, e, e);
    assert(parse_names(s, ca + 1, e) == (true, seq![p2], e));
    assert(parse_names(s, i + 11, e) == (true, seq![p1] + seq![p2], e));
    assert(seq![p1] + seq![p2] =~= seq![p1, p2]);
    assert(parse_tail(s, i + 10, e) == (true, seq![p1, p2], e));
    assert(parse_decl(s, i + 3, e) == (true, false, seq![p1, p2], e));
    assert(parse_decls(s, i + 3, e) == (true, Seq::<Seq<char>>::empty(), seq![p1, p2]));
    assert(line_parse(s, i) == (true, Seq::<Seq<char>>::empty(), seq![p1, p2]));
}

/// A header line at `i` of the shape `%% package:` + `p` + newline parses
/// to exactly that one package name.
proof fn lemma_line_one_pkg(s: Seq<char>, i: int, p: Seq<char>)
    requires
        valid_name(p),
        0 <= i,
        i + 11 + p.len() < s.len(),
        s.subrange(i, i + 11) == "%% package:"@,
        s.subrange(i + 11, i + 11 + p.len()) == p,
        s[i + 11 + p.len()] == '\n',
    ensures
        is_hline(s, i),
        hline_end(s, i) == i + 12 + p.len(),
        line_parse(s, i) == (true, Seq::<Seq<char>>::empty(), seq![p]),
{
    reveal_strlit("%% package:");
    reveal_strlit("tikzlibrary");
    reveal_strlit("package");
    let a = "%% package:"@;
    let e = i + 11 + p.len();
    assert forall|k: int| i <= k < i + 11 implies s[k] == a[k - i] by {
        assert(s.subrange(i, i + 11)[k - i] == s[k]);
    }
    assert forall|k: int| i + 11 <= k < e implies s[k] == p[k - (i + 11)] by {
        assert(s.subrange(i + 11, e)[k - (i + 11)] == s[k]);
    }
    assert forall|k: int| i + 2 <= k < e implies s[k] != '\n' by {
        if k >= i + 11 {
            assert(is_alpha(s[k]));
        }
    }
    lemma_nlp_run(s, i + 2, e);
    assert(is_hline(s, i));
    assert(spp(s, i + 3, e) == i + 3);
    assert(!kw_at(s, i + 3, lib_kw())) by {
        if kw_at(s, i + 3, lib_kw()) {
            assert(s.subrange(i + 3, i + 3 + lib_kw().len() as int)[0] == s[i + 3]);
        }
    }
    assert(kw_at(s, i + 3, pkg_kw())) by {
        assert(s.subrange(i + 3, i + 10) =~= pkg_kw());
    }
    assert(spp(s, i + 10, e) == i + 10);
    assert(is_alpha(p[0]) && s[i + 11] == p[0]);
    assert(spp(s, i + 11, e) == i + 11);
    lemma_alp_run(s, i + 11, e, e);
    assert(s.subrange(i + 11, e) == p);
    assert(parse_names(s, i + 11, e) == (true, seq![p], e));
    assert(parse_tail(s, i + 10, e) == (true, seq![p], e));
    assert(parse_decl(s, i + 3, e) == (true, false, seq![p], e));
    assert(parse_decls(s, i + 3, e) == (true, Seq::<Seq<char>>::empty(), seq![p]));
    assert(line_parse(s, i) == (true, Seq::<Seq<char>>::empty(), seq![p]));
}

/// Header text that declares packages `p1, p2` on one line and `p3` on
/// the next extracts to exactly the package sequence `p1, p2, p3`: source
/// order is kept across names, declarations, and lines.
#[verifier::rlimit(100)]
pub proof fn lemma_extract_package_lines(
    p1: Seq<char>,
    p2: Seq<char>,
    p3: Seq<char>,
    rest: Seq<char>,
)
    requires
        valid_name(p1),
        valid_name(p2),
        valid_name(p3),
        rest.len() == 0 || rest[0] != '%',
    ensures
        ({
            let s = "%% package:"@ + p1 + ","@ + p2 + "\n"@ + ("%% package:"@ + p3 + "\n"@
                + rest);
            &&& spec_extract(s).0 == Seq::<Seq<char>>::empty()
            &&& spec_extract(s).1 == seq![p1, p2, p3]
            &&& spec_extract(s).2 == s.len() - rest.len()
        }),
{
    reveal_strlit("%% package:");
    reveal_strlit(",");
    reveal_strlit("\n");
    let a = "%% package:"@;
    let s = a + p1 + ","@ + p2 + "\n"@ + (a + p3 + "\n"@ + rest);
    let n1 = p1.len() as int;
    let n2 = p2.len() as int;
    let n3 = p3.len() as int;
    let p = 13 + n1 + n2;
    let r0 = p + 12 + n3;
    assert(s.len() == r0 + rest.len());
    assert(s.subrange(0, 11) =~= a);
    assert(s.subrange(11, 11 + n1) =~= p1);
    assert(s[11 + n1] == ',');
    assert(s.subrange(12 + n1, 12 + n1 + n2) =~= p2);
    assert(s[12 + n1 + n2] == '\n');
    lemma_line_two_pkg(s, 0, p1, p2);
    assert(s.subrange(p, p + 11) =~= a);
    assert(s.subrange(p + 11, p + 11 + n3) =~= p3);
    assert(s[p + 11 + n3] == '\n');
    lemma_line_one_pkg(s, p, p3);
    assert(s[0] == '%');
    assert(wsp(s, 0) == 0);
    assert(hline_end(s, 0) == p);
    assert(hline_end(s, p) == r0);
    assert(!is_hline(s, r0)) by {
        if r0 + 2 < s.len() {
            assert(s[r0] == rest[0]);
        }
    }
    assert(block_end(s, r0) == r0);
    assert(block_end(s, p) == r0);
    assert(block_end(s, 0) == r0);
    assert(block_decls(s, r0) == (Seq::<Seq<char>>::empty(), Seq::<Seq<char>>::empty()));
    assert(block_decls(s, p).1 =~= seq![p3]);
    assert(block_decls(s, p).0 =~= Seq::<Seq<char>>::empty());
    assert(block_decls(s, 0).1 =~= seq![p1, p2, p3]);
    assert(block_decls(s, 0).0 =~= Seq::<Seq<char>>::empty());
}

proof fn lemma_views_push(v: Seq<String>, x: String)
    ensures
        str_views(v.push(x)) == str_views(v).push(x@),
{
    assert(str_views(v.push(x)) =~= str_views(v).push(x@));
}

proof fn lemma_views_concat(a: Seq<String>, b: Seq<String>)
    ensures
        str_views(a + b) == str_views(a) + str_views(b),
{
    assert(str_views(a + b) =~= str_views(a) + str_views(b));
}

/// Reads a name list into `out`, mirroring [`parse_names`].
fn run_names(text: &str, j: usize, m: usize, out: &mut Vec<String>) -> (r: (bool, usize))
    requires
        j <= m,
        m <= text@.len(),
    ensures
        ({
            let pn = parse_names(text@, j as int, m as int);
            &&& r.0 == pn.0
            &&& r.0 ==> str_views(final(out)@) == str_views(old(out)@) + pn.1 && r.1 == pn.2
                && j < r.1 <= m
        }),
    decreases m - j,
{
    let ghost s = text@;
    let a = alpha_end(text, j, m);
    if a == j {
        return (false, j);
    }
    let name = String::from_str(text.substring_char(j, a));
    out.push(name);
    proof {
        lemma_views_push(old(out)@, name);
        assert(str_views(old(out)@).push(name@) =~= str_views(old(out)@) + seq![s.subrange(
            j as int,
            a as int,
        )]);
    }
    if a < m && text.get_char(a) == ',' {
        let b = skip_spaces(text, a + 1, m);
        let a2 = alpha_end(text, b, m);
        if a2 > b {
            let ghost mid = out@;
            let r = run_names(text, b, m, out);
            proof {
                let rest = parse_names(s, b as int, m as int);
                if r.0 {
                    assert(str_views(mid) + rest.1 =~= str_views(old(out)@) + (seq![s.subrange(
                        j as int,
                        a as int,
                    )] + rest.1));
                }
            }
            return (r.0, r.1);
        }
    }
    (true, a)
}

/// Reads the part of a declaration after its keyword into `out`, mirroring
/// [`parse_tail`].
fn run_tail(text: &str, j: usize, m: usize, out: &mut Vec<String>) -> (r: (bool, usize))
    requires
        j <= text@.len(),
        m <= text@.len(),
    ensures
        ({
            let t = parse_tail(text@, j as int, m as int);
            &&& r.0 == t.0
            &&& r.0 ==> str_views(final(out)@) == str_views(old(out)@) + t.1 && r.1 == t.2
                && r.1 <= m
        }),
{
    let j2 = skip_spaces(text, j, m);
    if j2 >= m || text.get_char(j2) != ':' {
        return (false, j);
    }
    let j3 = skip_spaces(text, j2 + 1, m);
    run_names(text, j3, m, out)
}

/// Reads one declaration at `j`, appending its names to the vector of its
/// kind, mirroring [`parse_decl`].
fn run_decl(text: &str, j: usize, m: usize, libs: &mut Vec<String>, pkgs: &mut Vec<String>) -> (r:
    (bool, usize))
    requires
        j <= m,
        m <= text@.len(),
        text@.len() <= usize::MAX,
    ensures
        ({
            let d = parse_decl(text@, j as int, m as int);
            &&& r.0 == d.0
            &&& r.0 ==> r.1 == d.3 && r.1 <= m && str_views(final(libs)@) == str_views(old(libs)@)
                + (if d.1 { d.2 } else { Seq::empty() }) && str_views(final(pkgs)@) == str_views(
                old(pkgs)@,
            ) + (if d.1 { Seq::empty() } else { d.2 })
        }),
{
    proof {
        reveal_strlit("tikzlibrary");
        reveal_strlit("package");
    }
    if starts_with_at(text, j, "tikzlibrary") {
        let kl = "tikzlibrary".unicode_len();
        let r = run_tail(text, j + kl, m, libs);
        proof {
            if r.0 {
                assert(str_views(final(pkgs)@) =~= str_views(old(pkgs)@) + Seq::<
                    Seq<char>,
                >::empty());
            }
        }
        (r.0, r.1)
    } else if starts_with_at(text, j, "package") {
        let kl = "package".unicode_len();
        let r = run_tail(text, j + kl, m, pkgs);
        proof {
            if r.0 {
                assert(str_views(final(libs)@) =~= str_views(old(libs)@) + Seq::<
                    Seq<char>,
                >::empty());
            }
        }
        (r.0, r.1)
    } else {
        (false, j)
    }
}

/// Reads the declaration list of one line, mirroring [`parse_decls`].
fn run_decls(text: &str, j: usize, m: usize, libs: &mut Vec<String>, pkgs: &mut Vec<String>) -> (ok:
    bool)
    requires
        j <= m,
        m <= text@.len(),
        text@.len() <= usize::MAX,
    ensures
        ({
            let d = parse_decls(text@, j as int, m as int);
            &&& ok == d.0
            &&& ok ==> str_views(final(libs)@) == str_views(old(libs)@) + d.1 && str_views(
                final(pkgs)@,
            ) == str_views(old(pkgs)@) + d.2
        }),
    decreases m - j,
{
    let ghost s = text@;
    if j >= m {
        proof {
            assert(str_views(libs@) =~= str_views(libs@) + Seq::<Seq<char>>::empty());
            assert(str_views(pkgs@) =~= str_views(pkgs@) + Seq::<Seq<char>>::empty());
        }
        return true;
    }
    let (dok, p) = run_decl(text, j, m, libs, pkgs);
    if !dok {
        return false;
    }
    let ghost d = parse_decl(s, j as int, m as int);
    let ghost dl: Seq<Seq<char>> = if d.1 { d.2 } else { Seq::empty() };
    let ghost dp: Seq<Seq<char>> = if d.1 { Seq::empty() } else { d.2 };
    if p >= m {
        return true;
    }
    if !space_char(text.get_char(p)) {
        return false;
    }
    proof {
        lemma_decl_end(s, j as int, m as int);
        lemma_spp_bounds(s, p as int, m as int);
    }
    let q = skip_spaces(text, p, m);
    let ghost mid_l = libs@;
    let ghost mid_p = pkgs@;
    let ok = run_decls(text, q, m, libs, pkgs);
    proof {
        let r = parse_decls(s, q as int, m as int);
        if ok {
            assert(str_views(mid_l) + r.1 =~= str_views(old(libs)@) + (dl + r.1));
            assert(str_views(mid_p) + r.2 =~= str_views(old(pkgs)@) + (dp + r.2));
        }
    }
    ok
}

/// Parses the content of one header line, committing its declarations to
/// `hdr` only when the whole line parses.
fn run_line(text: &str, i: usize, e: usize, hdr: &mut Header) -> (ok: bool)
    requires
        is_hline(text@, i as int),
        e == hline_end(text@, i as int),
        e <= text@.len(),
        text@.len() <= usize::MAX,
    ensures
        ({
            let lp = line_parse(text@, i as int);
            &&& ok == lp.0
            &&& ok ==> str_views(final(hdr).tikz_library@) == str_views(old(hdr).tikz_library@)
                + lp.1 && str_views(final(hdr).package@) == str_views(old(hdr).package@) + lp.2
            &&& !ok ==> *final(hdr) == *old(hdr)
        }),
{
    let ghost s = text@;
    proof {
        lemma_nlp_bounds(s, i + 2);
    }
    if text.get_char(i + 2) == '\n' {
        proof {
            assert(str_views(hdr.tikz_library@) =~= str_views(hdr.tikz_library@) + Seq::<
                Seq<char>,
            >::empty());
            assert(str_views(hdr.package@) =~= str_views(hdr.package@) + Seq::<
                Seq<char>,
            >::empty());
        }
        return true;
    }
    let m = e - 1;
    proof {
        lemma_nlp_bounds(s, i + 3);
        assert(nlp(s, i + 2) == nlp(s, i + 3));
    }
    let j = skip_spaces(text, i + 3, m);
    let mut tl: Vec<String> = Vec::new();
    let mut tp: Vec<String> = Vec::new();
    let ok = run_decls(text, j, m, &mut tl, &mut tp);
    if !ok {
        return false;
    }
    proof {
        lemma_views_concat(hdr.tikz_library@, tl@);
        lemma_views_concat(hdr.package@, tp@);
        assert(str_views(tl@) =~= Seq::<Seq<char>>::empty() + str_views(tl@));
        assert(str_views(tp@) =~= Seq::<Seq<char>>::empty() + str_views(tp@));
    }
    hdr.tikz_library.append(&mut tl);
    hdr.package.append(&mut tp);
    true
}

/// Checks for a header line at `i` and returns the position after its
/// newline.
fn hline_end_at(text: &str, i: usize) -> (r: Option<usize>)
    requires
        i <= text@.len(),
    ensures
        r.is_some() == is_hline(text@, i as int),
        r.is_some() ==> r.unwrap() == hline_end(text@, i as int) && i < r.unwrap()
            <= text@.len(),
{
    let n = text.unicode_len();
    if n - i < 3 {
        return None;
    }
    if text.get_char(i) != '%' || text.get_char(i + 1) != '%' {
        return None;
    }
    let c2 = text.get_char(i + 2);
    if c2 != '\n' && c2 != ' ' {
        return None;
    }
    let e = find_newline(text, i + 2);
    if e < n {
        Some(e + 1)
    } else {
        None
    }
}

/// Extracts the leading header block of `input`.
///
/// Returns the declarations found and the number of leading characters
/// recognized as header, so that the caller can slice the body off without
/// re-scanning.  When no block is found the header is empty and nothing is
/// consumed.  Extraction never fails: a line that does not parse only stops
/// further declarations, while the block stays consumed.
pub fn header(input: &str) -> (r: (Header, usize))
    ensures
        ({
            let e = spec_extract(input@);
            &&& str_views(r.0.tikz_library@) == e.0
            &&& str_views(r.0.package@) == e.1
            &&& r.1 == e.2
        }),
{
    let ghost s = input@;
    let n = input.unicode_len();
    let w = skip_blanks(input, 0);
    let mut hdr = Header::new();
    proof {
        assert(str_views(hdr.tikz_library@) =~= Seq::<Seq<char>>::empty());
        assert(str_views(hdr.package@) =~= Seq::<Seq<char>>::empty());
    }
    if w > 0 && input.get_char(w - 1) != '\n' {
        return (hdr, 0);
    }
    let mut pos = w;
    let mut active = true;
    let mut line = hline_end_at(input, pos);
    while line.is_some()
        invariant
            w <= pos <= n,
            n == s.len(),
            s == input@,
            line.is_some() == is_hline(s, pos as int),
            line.is_some() ==> line.unwrap() == hline_end(s, pos as int) && pos < line.unwrap()
                <= n,
            block_end(s, w as int) == block_end(s, pos as int),
            active ==> str_views(hdr.tikz_library@) + block_decls(s, pos as int).0 == block_decls(
                s,
                w as int,
            ).0 && str_views(hdr.package@) + block_decls(s, pos as int).1 == block_decls(
                s,
                w as int,
            ).1,
            !active ==> str_views(hdr.tikz_library@) == block_decls(s, w as int).0 && str_views(
                hdr.package@,
            ) == block_decls(s, w as int).1,
        decreases n - pos,
    {
        let e = line.unwrap();
        if active {
            let ghost lp = line_parse(s, pos as int);
            let ghost old_hdr = hdr;
            let ok = run_line(input, pos, e, &mut hdr);
            proof {
                if ok {
                    let rest = block_decls(s, e as int);
                    assert(block_decls(s, pos as int).0 == lp.1 + rest.0);
                    assert(str_views(old_hdr.tikz_library@) + (lp.1 + rest.0) =~= (str_views(
                        old_hdr.tikz_library@,
                    ) + lp.1) + rest.0);
                    assert(str_views(old_hdr.package@) + (lp.2 + rest.1) =~= (str_views(
                        old_hdr.package@,
                    ) + lp.2) + rest.1);
                } else {
                    assert(block_decls(s, pos as int) == (
                        Seq::<Seq<char>>::empty(),
                        Seq::<Seq<char>>::empty(),
                    ));
                    assert(str_views(hdr.tikz_library@) + block_decls(s, pos as int).0
                        =~= str_views(hdr.tikz_library@));
                    assert(str_views(hdr.package@) + block_decls(s, pos as int).1 =~= str_views(
                        hdr.package@,
                    ));
                }
            }
            if !ok {
                active = false;
            }
        }
        pos = e;
        line = hline_end_at(input, pos);
    }
    proof {
        assert(block_decls(s, pos as int) == (Seq::<Seq<char>>::empty(), Seq::<Seq<char>>::empty()));
        if active {
            assert(str_views(hdr.tikz_library@) + block_decls(s, pos as int).0 =~= str_views(
                hdr.tikz_library@,
            ));
            assert(str_views(hdr.package@) + block_decls(s, pos as int).1 =~= str_views(
                hdr.package@,
            ));
        }
    }
    if pos == w {
        let empty = Header::new();
        proof {
            assert(str_views(empty.tikz_library@) =~= Seq::<Seq<char>>::empty());
            assert(str_views(empty.package@) =~= Seq::<Seq<char>>::empty());
        }
        return (empty, 0);
    }
    (hdr, pos)
}

/// Parses a single `tikzlibrary` declaration at the start of `input`,
/// returning its names and the number of characters consumed.
pub fn tikz_library(input: &str) -> (r: Option<(Vec<String>, usize)>)
    ensures
        ({
            let d = parse_decl(input@, 0, input@.len() as int);
            &&& r.is_some() == (d.0 && d.1)
            &&& r.is_some() ==> str_views(r.unwrap().0@) == d.2 && r.unwrap().1 == d.3
        }),
{
    let n = input.unicode_len();
    proof {
        reveal_strlit("tikzlibrary");
        reveal_strlit("package");
    }
    if !starts_with_at(input, 0, "tikzlibrary") {
        return None;
    }
    let kl = "tikzlibrary".unicode_len();
    let mut names: Vec<String> = Vec::new();
    proof {
        assert(str_views(names@) =~= Seq::<Seq<char>>::empty());
    }
    let (ok, end) = run_tail(input, kl, n, &mut names);
    if !ok {
        return None;
    }
    proof {
        assert(Seq::<Seq<char>>::empty() + parse_tail(input@, kl as int, n as int).1 =~= parse_tail(
            input@,
            kl as int,
            n as int,
        ).1);
    }
    Some((names, end))
}

/// Parses a single `package` declaration at the start of `input`, returning
/// its names and the number of characters consumed.
pub fn package(input: &str) -> (r: Option<(Vec<String>, usize)>)
    ensures
        ({
            let d = parse_decl(input@, 0, input@.len() as int);
            &&& r.is_some() == (d.0 && !d.1)
            &&& r.is_some() ==> str_views(r.unwrap().0@) == d.2 && r.unwrap().1 == d.3
        }),
{
    let n = input.unicode_len();
    proof {
        reveal_strlit("tikzlibrary");
        reveal_strlit("package");
    }
    if starts_with_at(input, 0, "tikzlibrary") {
        return None;
    }
    if !starts_with_at(input, 0, "package") {
        return None;
    }
    let kl = "package".unicode_len();
    let mut names: Vec<String> = Vec::new();
    proof {
        assert(str_views(names@) =~= Seq::<Seq<char>>::empty());
    }
    let (ok, end) = run_tail(input, kl, n, &mut names);
    if !ok {
        return None;
    }
    proof {
        assert(Seq::<Seq<char>>::empty() + parse_tail(input@, kl as int, n as int).1 =~= parse_tail(
            input@,
            kl as int,
            n as int,
        ).1);
    }
    Some((names, end))
}

} // verus!
