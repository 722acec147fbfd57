//! Tests of path reading, dependency files and tokens.

use cargo_issafe::depinfo::dep_info_sources;
use cargo_issafe::lexer::{tokenize, TokenClass};
use cargo_issafe::paths::{crate_name, is_dep_info_path, is_rust_source_path};
use cargo_issafe::scan::{count_unsafe, strip_comments};

#[test]
fn crate_name_is_the_stem_before_the_first_dash() {
    assert_eq!(crate_name("/t/debug/deps/rustc_lexer-bfc1ea28fe193e21.d"), "rustc_lexer");
    assert_eq!(crate_name("/t/deps/a-b-c.d"), "a");
    assert_eq!(crate_name("/t/deps/plain.d"), "plain");
    assert_eq!(crate_name("/t/deps/x.tar.d"), "x.tar");
    assert_eq!(crate_name("/t/deps/.hidden"), ".hidden");
    assert_eq!(crate_name("/t/deps/name-1.d/"), "name");
    assert_eq!(crate_name("/t/deps/.."), "");
    assert_eq!(crate_name("/"), "");
    assert_eq!(crate_name(""), "");
}

#[test]
fn dependency_files_have_the_extension_d() {
    assert!(is_dep_info_path("/deps/foo-12.d"));
    assert!(is_dep_info_path("foo.d/"));
    assert!(is_dep_info_path("dir/./foo.d/."));
    assert!(!is_dep_info_path("/deps/foo-12.D"));
    assert!(!is_dep_info_path("/deps/.d"));
    assert!(!is_dep_info_path("/deps/foo.rlib"));
    assert!(!is_dep_info_path("/deps/foo.dd"));
    assert!(!is_dep_info_path("/deps/d"));
    assert!(!is_dep_info_path("/deps/foo.d/.."));
}

#[test]
fn rust_sources_have_the_extension_rs_in_any_case() {
    assert!(is_rust_source_path("/src/lib.rs"));
    assert!(is_rust_source_path("/src/LIB.RS"));
    assert!(is_rust_source_path("/src/lib.rS"));
    assert!(!is_rust_source_path("/src/README.md"));
    assert!(!is_rust_source_path("/src/.rs"));
    assert!(!is_rust_source_path("/src/lib.rsx"));
    assert!(!is_rust_source_path("/src/rs"));
}

#[test]
fn dependency_file_lists_rust_sources_in_order() {
    let dep_info = "/t/deps/x-1.d: /s/lib.rs /s/a.rs\n\n/s/lib.rs:\r\n  /s/a.rs :\n/s/notes.md:\nno colon here\n/s/b.RS:";
    assert_eq!(dep_info_sources(dep_info), vec!["/s/lib.rs", "/s/a.rs", "/s/b.RS"]);
    assert!(dep_info_sources("").is_empty());
    assert!(dep_info_sources("/t/deps/x-1.d: /s/lib.rs\n").is_empty());
}

#[test]
fn tokens_cover_the_source() {
    let source = "fn main() { /* hi */ let s = \"x\"; } // end";
    let pieces = tokenize(source);
    let text: String = pieces.iter().map(|p| p.text).collect();
    assert_eq!(text, source);
    assert_eq!(pieces[0].text, "fn");
    assert_eq!(pieces[0].class, TokenClass::Ident);
    assert!(pieces.iter().any(|p| p.class == TokenClass::BlockComment && p.text == "/* hi */"));
    assert_eq!(pieces.last().unwrap().class, TokenClass::LineComment);
    assert!(tokenize("").is_empty());
}

#[test]
fn stripping_keeps_non_comment_text() {
    assert_eq!(strip_comments("a /* b */ c // d\ne"), "a  c \ne");
    assert_eq!(strip_comments("/* nested /* deep */ still */x"), "x");
    assert_eq!(strip_comments("é /* ü */ ß"), "é  ß");
    assert_eq!(strip_comments("/* unterminated"), "");
}

#[test]
fn counting_ignores_raw_identifiers_and_literals() {
    assert_eq!(count_unsafe("r#unsafe 'unsafe \"unsafe\" b\"unsafe\""), 0);
    assert_eq!(count_unsafe("unsafe"), 1);
    assert_eq!(count_unsafe("unsafe{unsafe}unsafe"), 3);
    assert_eq!(count_unsafe("Unsafe UNSAFE"), 0);
    assert_eq!(count_unsafe(""), 0);
}

#[test]
fn lines_listing_no_source_are_ignored_anywhere() {
    let base = "/d/x-1.d: /s/lib.rs\n/s/lib.rs:\n/s/m.rs:\n";
    let with_extra = "/d/x-1.d: /s/lib.rs\n/s/notes.md:\n/s/lib.rs:\nno colon\n/s/m.rs:\n/s/data.bin:\n";
    assert_eq!(dep_info_sources(base), dep_info_sources(with_extra));
    assert_eq!(dep_info_sources(base), vec!["/s/lib.rs", "/s/m.rs"]);
}
