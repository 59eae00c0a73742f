use tikzmk::render::{render, strip_bom};

#[test]
fn test_render() {
    let origin = "%%\n%% tikzlibrary:l package:p,q\n\\abc{de}";
    let rendered = "\\documentclass[tikz]{standalone}\n\
                    \\usepackage{p}\n\
                    \\usepackage{q}\n\
                    \\usetikzlibrary{l}\n\
                    \\begin{document}\n\
                    \\abc{de}\n\
                    \\end{document}\n";
    assert_eq!(render(origin), rendered);
}

#[test]
fn test_render_bom() {
    let origin = "\u{FEFF}%% tikzlibrary:calc\n\\abc{de}";
    let rendered = "\\documentclass[tikz]{standalone}\n\
                    \\usetikzlibrary{calc}\n\
                    \\begin{document}\n\
                    \\abc{de}\n\
                    \\end{document}\n";
    assert_eq!(render(origin), rendered);
}

#[test]
fn test_render_arrow() {
    let origin = "\\abc[<->]";
    let rendered = "\\documentclass[tikz]{standalone}\n\\begin{document}\n\\abc[<->]\n\\end{document}\n";
    assert_eq!(render(origin), rendered);
}

#[test]
fn render_empty_input() {
    assert_eq!(
        render(""),
        "\\documentclass[tikz]{standalone}\n\\begin{document}\n\n\\end{document}\n"
    );
}

#[test]
fn render_keeps_body_verbatim() {
    let origin = "%% package:a\nline one {x}\n\\weird %% package:b\n";
    let rendered = "\\documentclass[tikz]{standalone}\n\
                    \\usepackage{a}\n\
                    \\begin{document}\n\
                    line one {x}\n\\weird %% package:b\n\n\
                    \\end{document}\n";
    assert_eq!(render(origin), rendered);
}

#[test]
fn render_orders_lines_by_source() {
    let origin = "%% tikzlibrary:la,lb package:pa\n%% tikzlibrary:lc\n%% package:pb\nbody";
    let rendered = "\\documentclass[tikz]{standalone}\n\
                    \\usepackage{pa}\n\
                    \\usepackage{pb}\n\
                    \\usetikzlibrary{la}\n\
                    \\usetikzlibrary{lb}\n\
                    \\usetikzlibrary{lc}\n\
                    \\begin{document}\n\
                    body\n\
                    \\end{document}\n";
    assert_eq!(render(origin), rendered);
}

#[test]
fn render_same_with_and_without_bom() {
    let plain = "%% package:p\nbody";
    let with_bom = "\u{FEFF}%% package:p\nbody";
    assert_eq!(render(with_bom), render(plain));
}

#[test]
fn render_failed_header_line_still_consumed() {
    let origin = "%% package:p1\nbody";
    let rendered = "\\documentclass[tikz]{standalone}\n\\begin{document}\nbody\n\\end{document}\n";
    assert_eq!(render(origin), rendered);
}

#[test]
fn strip_bom_removes_one_mark() {
    assert_eq!(strip_bom("\u{FEFF}abc"), "abc");
    assert_eq!(strip_bom("abc"), "abc");
    assert_eq!(strip_bom(""), "");
    assert_eq!(strip_bom("\u{FEFF}\u{FEFF}x"), "\u{FEFF}x");
}
