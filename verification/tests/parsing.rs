use tikzmk::parse::{header, package, tikz_library, Header};

fn strings(v: &[&str]) -> Vec<String> {
    v.iter().map(|s| s.to_string()).collect()
}

#[test]
fn test_tikz_library() {
    let input = "tikzlibrary: calc, arrows";
    let r = tikz_library(input).unwrap();
    assert_eq!(r.0, strings(&["calc", "arrows"]));
    assert_eq!(r.1, input.len());
    let input = "tikzlibrary:calc,arrows";
    let r = tikz_library(input).unwrap();
    assert_eq!(r.0, strings(&["calc", "arrows"]));
    assert_eq!(r.1, input.len());
}

#[test]
fn test_package() {
    let input = "package: tikzcd, ctex";
    let r = package(input).unwrap();
    assert_eq!(r.0, strings(&["tikzcd", "ctex"]));
    assert_eq!(r.1, input.len());
    let input = "package:ctex";
    let r = package(input).unwrap();
    assert_eq!(r.0, strings(&["ctex"]));
    assert_eq!(r.1, input.len());
}

#[test]
fn test_header() {
    let input = "%% tikzlibrary: calc, decorate\n%% package:ctex  tikzlibrary: arrows\n";
    let (h, consumed) = header(input);
    assert_eq!(
        h,
        Header {
            tikz_library: strings(&["calc", "decorate", "arrows"]),
            package: strings(&["ctex"]),
        }
    );
    assert_eq!(consumed, input.len());
}

#[test]
fn test_header_parser() {
    let txt = "%%\n%%  tikzlibrary:calc,arrow\n";
    let (h, consumed) = header(txt);
    assert_eq!(
        h,
        Header {
            tikz_library: strings(&["calc", "arrow"]),
            package: strings(&[]),
        }
    );
    assert_eq!(consumed, txt.len());
}

#[test]
fn multi_keyword_single_line() {
    let input = "%% tikzlibrary:calc package:p,q\n";
    let (h, consumed) = header(input);
    assert_eq!(
        h,
        Header {
            tikz_library: strings(&["calc"]),
            package: strings(&["p", "q"]),
        }
    );
    assert_eq!(consumed, input.len());
}

#[test]
fn order_kept_across_lines() {
    let input = "%% tikzlibrary:la,lb\n%% tikzlibrary:lc package:pa\n%% package:pb\nbody";
    let (h, consumed) = header(input);
    assert_eq!(h.tikz_library, strings(&["la", "lb", "lc"]));
    assert_eq!(h.package, strings(&["pa", "pb"]));
    assert_eq!(consumed, input.len() - "body".len());
}

#[test]
fn no_header_consumes_nothing() {
    let (h, consumed) = header("\\abc{de}\n%% package:p\n");
    assert_eq!(h, Header::new());
    assert_eq!(consumed, 0);
}

#[test]
fn indented_comment_is_no_header() {
    let (h, consumed) = header("  %% package:p\n");
    assert_eq!(h, Header::new());
    assert_eq!(consumed, 0);
}

#[test]
fn blank_lines_before_header() {
    let input = "\n  \n%% package:p\nbody";
    let (h, consumed) = header(input);
    assert_eq!(h.package, strings(&["p"]));
    assert_eq!(h.tikz_library, strings(&[]));
    assert_eq!(consumed, input.len() - "body".len());
}

#[test]
fn comment_without_newline_is_body() {
    let (h, consumed) = header("%% package:p");
    assert_eq!(h, Header::new());
    assert_eq!(consumed, 0);
}

#[test]
fn comment_without_space_is_body() {
    let (h, consumed) = header("%%package:p\n");
    assert_eq!(h, Header::new());
    assert_eq!(consumed, 0);
}

#[test]
fn tab_after_prefix_is_body() {
    let (h, consumed) = header("%%\tpackage:p\n");
    assert_eq!(h, Header::new());
    assert_eq!(consumed, 0);
}

#[test]
fn bare_comment_lines_declare_nothing() {
    let input = "%%\n%% \nbody";
    let (h, consumed) = header(input);
    assert_eq!(h, Header::new());
    assert_eq!(consumed, input.len() - "body".len());
}

#[test]
fn unknown_keyword_abandons_header() {
    let input = "%% bogus:x\n%% package:p\nbody";
    let (h, consumed) = header(input);
    assert_eq!(h, Header::new());
    assert_eq!(consumed, input.len() - "body".len());
}

#[test]
fn failed_line_keeps_earlier_lines() {
    let input = "%% package:p\n%% bogus:x\n%% package:q\nbody";
    let (h, consumed) = header(input);
    assert_eq!(h.package, strings(&["p"]));
    assert_eq!(h.tikz_library, strings(&[]));
    assert_eq!(consumed, input.len() - "body".len());
}

#[test]
fn digit_in_name_fails_line() {
    let input = "%% package:p1\nbody";
    let (h, consumed) = header(input);
    assert_eq!(h, Header::new());
    assert_eq!(consumed, input.len() - "body".len());
}

#[test]
fn trailing_comma_fails_line() {
    let input = "%% package:p,\nbody";
    let (h, consumed) = header(input);
    assert_eq!(h, Header::new());
    assert_eq!(consumed, input.len() - "body".len());
}

#[test]
fn empty_name_list_fails_line() {
    let input = "%% package:\nbody";
    let (h, consumed) = header(input);
    assert_eq!(h, Header::new());
    assert_eq!(consumed, input.len() - "body".len());
}

#[test]
fn keyword_is_case_sensitive() {
    let input = "%% Package:p\nbody";
    let (h, consumed) = header(input);
    assert_eq!(h, Header::new());
    assert_eq!(consumed, input.len() - "body".len());
}

#[test]
fn space_around_colon_and_comma() {
    let input = "%% package : a, b ,c\nbody";
    let (h, consumed) = header(input);
    // " ,c" does not continue the list: the line fails as a whole.
    assert_eq!(h, Header::new());
    assert_eq!(consumed, input.len() - "body".len());
    let input = "%% package : a, b\nbody";
    let (h, _) = header(input);
    assert_eq!(h.package, strings(&["a", "b"]));
}

#[test]
fn wrong_keyword_for_entry_points() {
    assert!(tikz_library("package:p").is_none());
    assert!(package("tikzlibrary:calc").is_none());
    assert!(tikz_library("tikzlibrary calc").is_none());
    assert!(package("package p").is_none());
}

#[test]
fn new_header_is_empty() {
    let h = Header::new();
    assert!(h.tikz_library.is_empty());
    assert!(h.package.is_empty());
}
