//! The document renderer: fills the fixed standalone-document template with
//! the extracted declarations and the verbatim body.
//!
//! The template is
//!
//! ```text
//! \documentclass[tikz]{standalone}
//! <one \usepackage{...} line per declared package, in order>
//! <one \usetikzlibrary{...} line per declared library, in order>
//! \begin{document}
//! <body, verbatim>
//! \end{document}
//! ```

use vstd::prelude::*;

use crate::parse::{
    header, lemma_extract_bounds, lemma_extract_library_lines, lemma_extract_package_lines,
    spec_extract, str_views, valid_name,
};

verus! {

use vstd::string::StrSliceExecFns;
use vstd::string::StringExecFns;

/// The first line of every rendered document.
pub open spec fn doc_head() -> Seq<char> {
    "\\documentclass[tikz]{standalone}\n"@
}

/// The line that opens the document body.
pub open spec fn begin_doc() -> Seq<char> {
    "\\begin{document}\n"@
}

/// What follows the body: a newline, then the closing line.
pub open spec fn end_doc() -> Seq<char> {
    "\n\\end{document}\n"@
}

/// One `\usepackage` line per name in `ns`, from index `k` on.
pub open spec fn pkg_lines_from(ns: Seq<Seq<char>>, k: int) -> Seq<char>
    decreases ns.len() - k,
{
    if k < 0 || k >= ns.len() {
        Seq::empty()
    } else {
        "\\usepackage{"@ + ns[k] + "}\n"@ + pkg_lines_from(ns, k + 1)
    }
}

/// One `\usetikzlibrary` line per name in `ns`, from index `k` on.
pub open spec fn lib_lines_from(ns: Seq<Seq<char>>, k: int) -> Seq<char>
    decreases ns.len() - k,
{
    if k < 0 || k >= ns.len() {
        Seq::empty()
    } else {
        "\\usetikzlibrary{"@ + ns[k] + "}\n"@ + lib_lines_from(ns, k + 1)
    }
}

/// The text with a leading byte-order mark removed, if one is there.
pub open spec fn spec_strip_bom(s: Seq<char>) -> Seq<char> {
    if s.len() > 0 && s[0] == '\u{FEFF}' {
        s.drop_first()
    } else {
        s
    }
}

/// The rendered document for input `s`: the template filled with the
/// extracted declarations and the unconsumed remainder of the
/// BOM-stripped text.
pub open spec fn spec_render(s: Seq<char>) -> Seq<char> {
    let t = spec_strip_bom(s);
    let e = spec_extract(t);
    doc_head() + pkg_lines_from(e.1, 0) + lib_lines_from(e.0, 0) + begin_doc() + t.skip(e.2)
        + end_doc()
}

/// Removes a leading byte-order mark, once.
pub fn strip_bom(text: &str) -> (res: &str)
    ensures
        res@ == spec_strip_bom(text@),
{
    let n = text.unicode_len();
    if n > 0 && text.get_char(0) == '\u{FEFF}' {
        let r = text.substring_char(1, n);
        proof {
            assert(r@ =~= text@.drop_first());
        }
        r
    } else {
        text
    }
}

/// Renders `file_text` into a complete standalone document.
///
/// Total on every input: the byte-order mark is stripped, the header block
/// extracted, and the rest of the text inserted verbatim, with no escaping,
/// between `\begin{document}` and `\end{document}`.
pub fn render(file_text: &str) -> (res: String)
    ensures
        res@ == spec_render(file_text@),
{
    let stripped = strip_bom(file_text);
    let ghost t = stripped@;
    let (hdr, consumed) = header(stripped);
    let ghost e = spec_extract(t);
    let ghost pviews = str_views(hdr.package@);
    let ghost lviews = str_views(hdr.tikz_library@);
    let n = stripped.unicode_len();
    proof {
        lemma_extract_bounds(t);
    }
    let body = stripped.substring_char(consumed, n);
    proof {
        assert(body@ =~= t.skip(e.2));
    }
    let mut out = String::new();
    out.append("\\documentclass[tikz]{standalone}\n");
    let ghost tail = begin_doc() + t.skip(e.2) + end_doc();
    proof {
        assert(out@ =~= doc_head());
        assert(doc_head() + pkg_lines_from(pviews, 0) + (lib_lines_from(lviews, 0) + tail)
            =~= spec_render(file_text@));
    }
    let mut k: usize = 0;
    while k < hdr.package.len()
        invariant
            0 <= k <= hdr.package.len(),
            pviews == str_views(hdr.package@),
            out@ + pkg_lines_from(pviews, k as int) + (lib_lines_from(lviews, 0) + tail)
                == spec_render(file_text@),
        decreases hdr.package.len() - k,
    {
        let ghost before = out@;
        out.append("\\usepackage{");
        out.append(hdr.package[k].as_str());
        out.append("}\n");
        proof {
            assert(hdr.package@[k as int]@ == pviews[k as int]);
            assert(out@ + pkg_lines_from(pviews, k as int + 1) =~= before + pkg_lines_from(
                pviews,
                k as int,
            ));
        }
        k = k + 1;
    }
    proof {
        assert(out@ + pkg_lines_from(pviews, hdr.package@.len() as int) =~= out@);
        assert(out@ + (lib_lines_from(lviews, 0) + tail) =~= out@ + lib_lines_from(lviews, 0)
            + tail);
    }
    let mut k2: usize = 0;
    while k2 < hdr.tikz_library.len()
        invariant
            0 <= k2 <= hdr.tikz_library.len(),
            lviews == str_views(hdr.tikz_library@),
            out@ + lib_lines_from(lviews, k2 as int) + tail == spec_render(file_text@),
        decreases hdr.tikz_library.len() - k2,
    {
        let ghost before = out@;
        out.append("\\usetikzlibrary{");
        out.append(hdr.tikz_library[k2].as_str());
        out.append("}\n");
        proof {
            assert(hdr.tikz_library@[k2 as int]@ == lviews[k2 as int]);
            assert(out@ + lib_lines_from(lviews, k2 as int + 1) =~= before + lib_lines_from(
                lviews,
                k2 as int,
            ));
        }
        k2 = k2 + 1;
    }
    let ghost mid = out@;
    proof {
        assert(mid + lib_lines_from(lviews, hdr.tikz_library@.len() as int) =~= mid);
    }
    out.append("\\begin{document}\n");
    out.append(body);
    out.append("\n\\end{document}\n");
    proof {
        assert(out@ =~= mid + tail);
    }
    out
}

/// A text with no byte-order mark and no leading comment block renders to
/// the template around the unchanged text, with no package and no library
/// lines.
pub proof fn lemma_identity_header(s: Seq<char>)
    requires
        s.len() == 0 || s[0] != '\u{FEFF}',
        spec_extract(s).2 == 0,
    ensures
        spec_render(s) == doc_head() + begin_doc() + s + end_doc(),
{
    assert(spec_extract(s).0 == Seq::<Seq<char>>::empty() && spec_extract(s).1 == Seq::<
        Seq<char>,
    >::empty()) by {
        crate::parse::lemma_no_consume_no_decls(s);
    }
    assert(s.skip(0) =~= s);
    assert(doc_head() + Seq::<char>::empty() + Seq::<char>::empty() + begin_doc() + s + end_doc()
        =~= doc_head() + begin_doc() + s + end_doc());
}

/// The body segment of the rendered document is the input after the
/// consumed header, character for character: rendering never changes the
/// body.
pub proof fn lemma_body_passthrough(s: Seq<char>)
    ensures
        ({
            let t = spec_strip_bom(s);
            let e = spec_extract(t);
            let front = doc_head() + pkg_lines_from(e.1, 0) + lib_lines_from(e.0, 0) + begin_doc();
            &&& spec_render(s) == front + t.skip(e.2) + end_doc()
            &&& spec_render(s).subrange(
                front.len() as int,
                front.len() + (t.len() - e.2),
            ) == t.skip(e.2)
        }),
{
    let t = spec_strip_bom(s);
    let e = spec_extract(t);
    let front = doc_head() + pkg_lines_from(e.1, 0) + lib_lines_from(e.0, 0) + begin_doc();
    lemma_extract_bounds(t);
    assert(spec_render(s) =~= front + t.skip(e.2) + end_doc());
    assert(spec_render(s).subrange(front.len() as int, front.len() + (t.len() - e.2)) =~= t.skip(
        e.2,
    ));
}

/// Header text declaring libraries `l1, l2` on one line and `l3` on the
/// next renders to one `\usetikzlibrary` line per name, in source order,
/// with no package line and the rest of the input as body.
#[verifier::rlimit(100)]
pub proof fn lemma_order_preservation_libraries(
    l1: Seq<char>,
    l2: Seq<char>,
    l3: Seq<char>,
    rest: Seq<char>,
)
    requires
        valid_name(l1),
        valid_name(l2),
        valid_name(l3),
        rest.len() == 0 || rest[0] != '%',
    ensures
        ({
            let s = "%% tikzlibrary:"@ + l1 + ","@ + l2 + "\n"@ + ("%% tikzlibrary:"@ + l3 + "\n"@
                + rest);
            spec_render(s) == doc_head() + ("\\usetikzlibrary{"@ + l1 + "}\n"@) + (
            "\\usetikzlibrary{"@ + l2 + "}\n"@) + ("\\usetikzlibrary{"@ + l3 + "}\n"@)
                + begin_doc() + rest + end_doc()
        }),
{
    lemma_extract_library_lines(l1, l2, l3, rest);
    reveal_strlit("%% tikzlibrary:");
    let s = "%% tikzlibrary:"@ + l1 + ","@ + l2 + "\n"@ + ("%% tikzlibrary:"@ + l3 + "\n"@
        + rest);
    assert(s[0] == ("%% tikzlibrary:"@)[0]);
    assert(spec_strip_bom(s) == s);
    let e = spec_extract(s);
    let lv = seq![l1, l2, l3];
    assert(lib_lines_from(lv, 3) =~= Seq::<char>::empty());
    assert(lib_lines_from(lv, 2) =~= "\\usetikzlibrary{"@ + l3 + "}\n"@);
    assert(lib_lines_from(lv, 1) =~= "\\usetikzlibrary{"@ + l2 + "}\n"@ + lib_lines_from(lv, 2));
    assert(lib_lines_from(lv, 0) =~= "\\usetikzlibrary{"@ + l1 + "}\n"@ + lib_lines_from(lv, 1));
    assert(pkg_lines_from(Seq::<Seq<char>>::empty(), 0) == Seq::<char>::empty());
    assert(s.skip(e.2) =~= rest);
    assert(spec_render(s) =~= doc_head() + ("\\usetikzlibrary{"@ + l1 + "}\n"@) + (
    "\\usetikzlibrary{"@ + l2 + "}\n"@) + ("\\usetikzlibrary{"@ + l3 + "}\n"@) + begin_doc() + rest
        + end_doc());
}

/// Header text declaring packages `p1, p2` on one line and `p3` on the
/// next renders to one `\usepackage` line per name, in source order, with
/// no library line and the rest of the input as body.
#[verifier::rlimit(100)]
pub proof fn lemma_order_preservation_packages(
    p1: Seq<char>,
    p2: Seq<char>,
    p3: Seq<char>,
    rest: Seq<char>,
)
    requires
        valid_name(p1),
        valid_name(p2),
        valid_name(p3),
        rest.len() == 0 || rest[0] != '%',
    ensures
        ({
            let s = "%% package:"@ + p1 + ","@ + p2 + "\n"@ + ("%% package:"@ + p3 + "\n"@ + rest);
            spec_render(s) == doc_head() + ("\\usepackage{"@ + p1 + "}\n"@) + ("\\usepackage{"@ + p2
                + "}\n"@) + ("\\usepackage{"@ + p3 + "}\n"@) + begin_doc() + rest + end_doc()
        }),
{
    lemma_extract_package_lines(p1, p2, p3, rest);
    reveal_strlit("%% package:");
    let s = "%% package:"@ + p1 + ","@ + p2 + "\n"@ + ("%% package:"@ + p3 + "\n"@ + rest);
    assert(s[0] == ("%% package:"@)[0]);
    assert(spec_strip_bom(s) == s);
    let e = spec_extract(s);
    let pv = seq![p1, p2, p3];
    assert(pkg_lines_from(pv, 3) =~= Seq::<char>::empty());
    assert(pkg_lines_from(pv, 2) =~= "\\usepackage{"@ + p3 + "}\n"@);
    assert(pkg_lines_from(pv, 1) =~= "\\usepackage{"@ + p2 + "}\n"@ + pkg_lines_from(pv, 2));
    assert(pkg_lines_from(pv, 0) =~= "\\usepackage{"@ + p1 + "}\n"@ + pkg_lines_from(pv, 1));
    assert(lib_lines_from(Seq::<Seq<char>>::empty(), 0) == Seq::<char>::empty());
    assert(s.skip(e.2) =~= rest);
    assert(spec_render(s) =~= doc_head() + ("\\usepackage{"@ + p1 + "}\n"@) + ("\\usepackage{"@ + p2
        + "}\n"@) + ("\\usepackage{"@ + p3 + "}\n"@) + begin_doc() + rest + end_doc());
}

/// An input that begins with a byte-order mark renders exactly as the same
/// input with the mark removed, provided the remainder does not itself
/// begin with another mark.
pub proof fn lemma_bom_stripping(s: Seq<char>)
    requires
        s.len() > 0,
        s[0] == '\u{FEFF}',
        s.len() == 1 || s[1] != '\u{FEFF}',
    ensures
        spec_render(s) == spec_render(s.drop_first()),
{
    assert(spec_strip_bom(s) == s.drop_first());
    assert(spec_strip_bom(s.drop_first()) == s.drop_first());
}

} // verus!
