//! Tests of comment stripping, `unsafe` counting and the dependency scans.

use std::collections::HashMap;
use std::io;

use cargo_issafe::error::IsSafeError;
use cargo_issafe::lexer::{tokenize, Piece, TokenClass};
use cargo_issafe::scan::{
    count_pieces, count_unsafe, forbids_unsafe_code, pieces_forbid_unsafe, strip_comments,
    strip_pieces, DependencyScan, Safety,
};
use cargo_issafe::unsafe_scan::UnsafeScan;
use cargo_issafe::walk::{ScanAction, ScanEvent};
use cargo_issafe::Unsafe;

const DEPS_DIR: &str = "/work/target/debug/deps";

/// An in-memory directory: the paths of its entries, in listing order, and the
/// content of each readable file.
struct FakeDir {
    listing: Vec<String>,
    files: HashMap<String, String>,
}

impl FakeDir {
    fn new() -> FakeDir {
        FakeDir { listing: Vec::new(), files: HashMap::new() }
    }

    fn add_file(&mut self, path: String, content: &str) {
        self.listing.push(path.clone());
        self.files.insert(path, content.to_string());
    }

    fn read(&self, path: &str) -> ScanEvent {
        match self.files.get(path) {
            Some(content) => ScanEvent::Contents(content.clone()),
            None => ScanEvent::Failed(io::Error::new(io::ErrorKind::NotFound, path.to_string())),
        }
    }
}

fn write_dependency(dir: &mut FakeDir, crate_name: &str, sources: &[(&str, &str)]) {
    let mut dep_info = String::new();
    for &(source_name, source) in sources {
        let source_path = format!("{DEPS_DIR}/{source_name}");
        dir.add_file(source_path.clone(), source);
        dep_info.push_str(&source_path);
        dep_info.push_str(":\n");
    }
    dir.add_file(format!("{DEPS_DIR}/{crate_name}-123.d"), &dep_info);
}

fn dependency_safety(dir: &FakeDir) -> Result<Vec<(String, Safety)>, IsSafeError> {
    let (mut scan, mut action) = DependencyScan::new(dir.listing.clone());
    loop {
        let event = match action {
            ScanAction::ReadDepInfo(i) => dir.read(&dir.listing[i]),
            ScanAction::ReadSource(path) => dir.read(&path),
            ScanAction::Finished(outcome) => return outcome,
        };
        action = scan.step(event).unwrap();
    }
}

fn unsafe_status(dir: &FakeDir) -> Result<Vec<(String, Unsafe)>, IsSafeError> {
    let (mut scan, mut action) = UnsafeScan::new(dir.listing.clone());
    loop {
        let event = match action {
            ScanAction::ReadDepInfo(i) => dir.read(&dir.listing[i]),
            ScanAction::ReadSource(path) => dir.read(&path),
            ScanAction::Finished(outcome) => return outcome,
        };
        action = scan.step(event);
    }
}

fn assert_dependency_safety(sources: &[(&str, &str)], expected: Safety) {
    let mut dir = FakeDir::new();
    write_dependency(&mut dir, "example", sources);

    let safety_result = dependency_safety(&dir);
    assert!(safety_result.is_ok());
    if let Ok(safety) = safety_result {
        assert_eq!(safety, vec![("example".to_string(), expected)]);
    }
}

#[test]
fn removes_all_comment_styles() {
    assert_eq!(strip_comments("//! #![forbid(unsafe_code)]"), "");
    assert_eq!(strip_comments("/// #![forbid(unsafe_code)]"), "");
    assert_eq!(strip_comments("// #![forbid(unsafe_code)]"), "");
    assert_eq!(strip_comments("/* #![forbid(unsafe_code)] */"), "");
}

#[test]
fn comment_inside_attribute_is_still_matched() {
    let source = "#![/* unsafe */forbid(unsafe_code)]";
    assert_eq!(strip_comments(source), "#![forbid(unsafe_code)]");
    assert_eq!(count_unsafe(source), 0);
}

#[test]
fn ignores_comment_markers_in_strings_and_char_literals() {
    let source = "let url = \"http://example.com\"; let c = '/';";
    assert_eq!(strip_comments(source), source);
}

#[test]
fn counts_only_unsafe_ident() {
    assert_eq!(count_unsafe("unsafe fn f() { unsafe {} }\n// unsafe\nunsafe_ident"), 2);
}

#[test]
fn reports_forbids_unsafe_from_dependency_entry_point() {
    assert_dependency_safety(&[("lib.rs", "#![forbid(unsafe_code)]\n")], Safety::ForbidsUnsafe);
}

#[test]
fn reports_no_unsafe_from_dependency_entry_point_without_forbid_attribute() {
    assert_dependency_safety(&[("lib.rs", "pub fn value() -> usize { 0 }\n")], Safety::NoUnsafe);
}

#[test]
fn reports_unsafe_usage_from_dependency_entry_point() {
    assert_dependency_safety(&[("lib.rs", "pub unsafe fn value() {}\n")], Safety::UsesUnsafe(1));
}

#[test]
fn reports_no_unsafe_from_multiple_source_files() {
    assert_dependency_safety(
        &[
            ("lib_0.rs", "pub fn value() -> usize { 0 }\n"),
            ("lib_1.rs", "pub fn other_value() -> usize { 1 }\n"),
        ],
        Safety::NoUnsafe,
    );
}

#[test]
fn reports_unsafe_usage_from_multiple_source_files() {
    assert_dependency_safety(
        &[
            ("lib_0.rs", "pub fn value() -> usize { 0 }\n"),
            ("lib_1.rs", "pub unsafe fn value() {}\n"),
        ],
        Safety::UsesUnsafe(1),
    );
}

#[test]
fn skips_non_source_files_with_unsafe_content() {
    assert_dependency_safety(
        &[("example_0.rs", "pub fn value() {}\n"), ("README.md", "unsafe fn documented() {}\n")],
        Safety::NoUnsafe,
    );
}

#[test]
fn returns_no_dependencies_when_directory_has_no_d_files() {
    let dir = FakeDir::new();

    let safety_result = dependency_safety(&dir);
    assert!(safety_result.is_ok());
    if let Ok(safety) = safety_result {
        assert!(safety.is_empty());
    }
}

#[test]
fn reports_missing_entry_point_for_dependency_without_sources() {
    let mut dir = FakeDir::new();
    write_dependency(&mut dir, "example", &[]);

    let safety_result = dependency_safety(&dir);
    assert!(matches!(safety_result, Err(IsSafeError::MissingEntryPoint)));
}

#[test]
fn reports_forbids_unsafe_and_continues_to_next_dependency() {
    let mut dir = FakeDir::new();
    write_dependency(
        &mut dir,
        "forbidden",
        &[
            ("forbidden_lib.rs", "#![forbid(unsafe_code)]\n"),
            ("forbidden_module.rs", "pub unsafe fn value() {}\n"),
        ],
    );
    write_dependency(&mut dir, "next", &[("next_lib.rs", "pub fn value() {}\n")]);

    let safety_result = dependency_safety(&dir);
    assert!(safety_result.is_ok());
    if let Ok(safety) = safety_result {
        assert_eq!(safety.len(), 2);
        assert!(safety.contains(&("forbidden".to_string(), Safety::ForbidsUnsafe)));
        assert!(safety.contains(&("next".to_string(), Safety::NoUnsafe)));
    }
}

#[test]
fn reports_io_error_for_unreadable_source() {
    let mut dir = FakeDir::new();
    dir.add_file(format!("{DEPS_DIR}/example-1.d"), "/nowhere/lib.rs:\n");
    assert!(matches!(dependency_safety(&dir), Err(IsSafeError::Io(_))));
    assert!(matches!(unsafe_status(&dir), Err(IsSafeError::Io(_))));
}

#[test]
fn forbidding_entry_point_is_the_only_source_read() {
    // The module cannot be read, but it is never asked for.
    let mut dir = FakeDir::new();
    dir.add_file(format!("{DEPS_DIR}/lib.rs"), "// policy\n#![forbid(unsafe_code)]\n");
    dir.add_file(
        format!("{DEPS_DIR}/example-1.d"),
        &format!("{DEPS_DIR}/lib.rs:\n/nowhere/module.rs:\n"),
    );
    assert_eq!(dependency_safety(&dir).unwrap(), vec![("example".to_string(), Safety::ForbidsUnsafe)]);
}

#[test]
fn counts_unsafe_across_all_sources() {
    assert_dependency_safety(
        &[
            ("lib.rs", "unsafe fn a() {}\nunsafe impl Send for X {}\n"),
            ("m.rs", "fn b() { unsafe { c() } }\n"),
            ("n.rs", "/* unsafe */ const S: &str = \"unsafe\";\n"),
        ],
        Safety::UsesUnsafe(3),
    );
}

#[test]
fn forbid_attribute_in_a_comment_does_not_count() {
    assert_dependency_safety(
        &[("lib.rs", "// #![forbid(unsafe_code)]\npub unsafe fn f() {}\n")],
        Safety::UsesUnsafe(1),
    );
    assert!(!forbids_unsafe_code("/* #![forbid(unsafe_code)] */"));
    assert!(forbids_unsafe_code("//! docs\n#![forbid(unsafe_code)]\nfn main() {}"));
    assert!(!forbids_unsafe_code("#![forbid(unsafe_code, missing_docs)]"));
}

#[test]
fn results_follow_listing_order_and_skip_other_files() {
    let mut dir = FakeDir::new();
    dir.add_file(format!("{DEPS_DIR}/libzeta-9.rlib"), "binary");
    write_dependency(&mut dir, "zeta", &[("z.rs", "unsafe fn z() {}")]);
    write_dependency(&mut dir, "alpha", &[("a.rs", "fn a() {}")]);
    assert_eq!(
        dependency_safety(&dir).unwrap(),
        vec![("zeta".to_string(), Safety::UsesUnsafe(1)), ("alpha".to_string(), Safety::NoUnsafe)]
    );
}

#[test]
fn unsafe_status_ignores_forbid_attribute_in_comments() {
    let mut dir = FakeDir::new();
    write_dependency(&mut dir, "commented", &[("c.rs", "// #![forbid(unsafe_code)]\nunsafe fn f() {}")]);
    write_dependency(&mut dir, "guarded", &[("g.rs", "#![/* x */forbid(unsafe_code)]\nunsafe fn f() {}")]);
    write_dependency(&mut dir, "plain", &[("p.rs", "fn f() {}")]);
    write_dependency(&mut dir, "risky", &[("r0.rs", "fn f() {}"), ("r1.rs", "unsafe fn g() {}")]);
    assert_eq!(
        unsafe_status(&dir).unwrap(),
        vec![
            ("commented".to_string(), Unsafe::Present),
            ("guarded".to_string(), Unsafe::Forbidden),
            ("plain".to_string(), Unsafe::Absent),
            ("risky".to_string(), Unsafe::Present),
        ]
    );
}

#[test]
fn unsafe_status_joins_sources_before_lexing() {
    // An unterminated block comment in the entry point swallows the next file.
    let mut dir = FakeDir::new();
    write_dependency(&mut dir, "open", &[("o0.rs", "fn f() {} /*"), ("o1.rs", "unsafe fn g() {}")]);
    assert_eq!(unsafe_status(&dir).unwrap(), vec![("open".to_string(), Unsafe::Absent)]);
    assert!(matches!(unsafe_status(&FakeDir::new()), Ok(v) if v.is_empty()));
}

#[test]
fn unsafe_status_reports_missing_entry_point() {
    let mut dir = FakeDir::new();
    dir.add_file(format!("{DEPS_DIR}/empty-1.d"), "/work/lib.md:\n");
    assert!(matches!(unsafe_status(&dir), Err(IsSafeError::MissingEntryPoint)));
}

#[test]
fn comment_free_entry_is_judged_alike_by_both_scans() {
    let mut dir = FakeDir::new();
    write_dependency(&mut dir, "guarded", &[("g.rs", "#![forbid(unsafe_code)]\nfn f() {}\n")]);
    write_dependency(&mut dir, "open", &[("o.rs", "#![deny(unsafe_code)]\nfn f() {}\n")]);
    assert_eq!(
        dependency_safety(&dir).unwrap(),
        vec![("guarded".to_string(), Safety::ForbidsUnsafe), ("open".to_string(), Safety::NoUnsafe)]
    );
    assert_eq!(
        unsafe_status(&dir).unwrap(),
        vec![("guarded".to_string(), Unsafe::Forbidden), ("open".to_string(), Unsafe::Absent)]
    );
}

#[test]
fn unsafe_status_settles_forbidding_entry_without_reading_modules() {
    let mut dir = FakeDir::new();
    dir.add_file(format!("{DEPS_DIR}/lib.rs"), "#![/* x */forbid(unsafe_code)]\n");
    dir.add_file(
        format!("{DEPS_DIR}/example-1.d"),
        &format!("{DEPS_DIR}/lib.rs:\n/nowhere/module.rs:\n"),
    );
    assert_eq!(unsafe_status(&dir).unwrap(), vec![("example".to_string(), Unsafe::Forbidden)]);
}

#[test]
fn error_messages() {
    assert_eq!(IsSafeError::MissingEntryPoint.message(), "Entry point is not found");
    let err = IsSafeError::Io(io::Error::new(io::ErrorKind::NotFound, "gone"));
    assert_eq!(err.message(), "Failed to read source file: gone");
    let from: IsSafeError = io::Error::new(io::ErrorKind::Other, "x").into();
    assert!(matches!(from, IsSafeError::Io(_)));
}

#[test]
fn both_scans_agree_on_a_readable_directory() {
    let mut dir = FakeDir::new();
    write_dependency(&mut dir, "a", &[("a.rs", "#![forbid(unsafe_code)]")]);
    write_dependency(&mut dir, "b", &[("b0.rs", "fn f() {}"), ("b1.rs", "unsafe fn g() {}")]);
    write_dependency(&mut dir, "c", &[("c.rs", "// #![forbid(unsafe_code)]\nfn f() {}")]);
    let safety = dependency_safety(&dir).unwrap();
    let status = unsafe_status(&dir).unwrap();
    let mapped: Vec<(String, Unsafe)> = safety
        .into_iter()
        .map(|(name, s)| {
            let u = match s {
                Safety::ForbidsUnsafe => Unsafe::Forbidden,
                Safety::NoUnsafe => Unsafe::Absent,
                Safety::UsesUnsafe(_) => Unsafe::Present,
            };
            (name, u)
        })
        .collect();
    assert_eq!(mapped, status);
    assert_eq!(status[2], ("c".to_string(), Unsafe::Absent));
}

#[test]
fn missing_entry_point_after_scanned_crates() {
    let mut dir = FakeDir::new();
    write_dependency(&mut dir, "fine", &[("f.rs", "fn f() {}")]);
    write_dependency(&mut dir, "empty", &[]);
    assert!(matches!(dependency_safety(&dir), Err(IsSafeError::MissingEntryPoint)));
    assert!(matches!(unsafe_status(&dir), Err(IsSafeError::MissingEntryPoint)));
}

#[test]
fn token_functions_work_on_given_pieces() {
    let pieces = vec![
        Piece { class: TokenClass::Ident, text: "unsafe" },
        Piece { class: TokenClass::Other, text: " " },
        Piece { class: TokenClass::BlockComment, text: "/* unsafe */" },
        Piece { class: TokenClass::Ident, text: "unsafe" },
        Piece { class: TokenClass::LineComment, text: "// #![forbid(unsafe_code)]" },
        Piece { class: TokenClass::Other, text: "\"unsafe\"" },
    ];
    assert_eq!(strip_pieces(&pieces), "unsafe unsafe\"unsafe\"");
    assert_eq!(count_pieces(&pieces), 2);
    assert!(!pieces_forbid_unsafe(&pieces));
    let attr = tokenize("#![forbid(unsafe_code)]");
    assert!(pieces_forbid_unsafe(&attr));
    assert_eq!(count_pieces(&attr), 0);
}

#[test]
fn tokenize_splits_comments_and_idents() {
    let pieces = tokenize("a /* b */ unsafe");
    let classes: Vec<TokenClass> = pieces.iter().map(|p| p.class).collect();
    let texts: Vec<&str> = pieces.iter().map(|p| p.text).collect();
    assert_eq!(texts, vec!["a", " ", "/* b */", " ", "unsafe"]);
    assert_eq!(
        classes,
        vec![
            TokenClass::Ident,
            TokenClass::Other,
            TokenClass::BlockComment,
            TokenClass::Other,
            TokenClass::Ident,
        ]
    );
}

#[test]
fn source_without_slash_is_unchanged() {
    let source = "fn main() { let x = 1 * 2; } # [ attr ]";
    assert_eq!(strip_comments(source), source);
    assert_eq!(strip_comments(""), "");
}

#[test]
fn removed_parts_are_comments() {
    let source = "a // one\nb /* two */ c";
    let stripped = strip_comments(source);
    assert_eq!(stripped, "a \nb  c");
    assert!(stripped.len() <= source.len());
}

#[test]
fn count_is_at_most_text_occurrences() {
    let source = "\"unsafe\" // unsafe\nunsafe fn f() {} /* unsafe */ r#unsafe";
    assert_eq!(count_unsafe(source), 1);
    assert_eq!(source.matches("unsafe").count(), 5);
    assert_eq!(count_unsafe("fn safe() {}"), 0);
}

#[test]
fn order_of_non_entry_sources_does_not_matter() {
    let mut first = FakeDir::new();
    write_dependency(
        &mut first,
        "ordered",
        &[("lib.rs", "fn f() {}"), ("a.rs", "unsafe fn a() {}"), ("b.rs", "unsafe impl X for Y {}\nunsafe fn b() {}")],
    );
    let mut second = FakeDir::new();
    write_dependency(
        &mut second,
        "ordered",
        &[("lib.rs", "fn f() {}"), ("b.rs", "unsafe impl X for Y {}\nunsafe fn b() {}"), ("a.rs", "unsafe fn a() {}")],
    );
    let expected = vec![("ordered".to_string(), Safety::UsesUnsafe(3))];
    assert_eq!(dependency_safety(&first).unwrap(), expected);
    assert_eq!(dependency_safety(&second).unwrap(), expected);
}

#[test]
fn both_scans_stop_at_an_unreadable_module() {
    let mut dir = FakeDir::new();
    write_dependency(&mut dir, "fine", &[("f.rs", "fn f() {}")]);
    dir.add_file(format!("{DEPS_DIR}/lib.rs"), "fn main() {}\n");
    dir.add_file(
        format!("{DEPS_DIR}/broken-1.d"),
        &format!("{DEPS_DIR}/lib.rs:\n/nowhere/module.rs:\n"),
    );
    write_dependency(&mut dir, "later", &[("l.rs", "unsafe fn l() {}")]);
    assert!(matches!(dependency_safety(&dir), Err(IsSafeError::Io(_))));
    assert!(matches!(unsafe_status(&dir), Err(IsSafeError::Io(_))));
    if let Err(IsSafeError::Io(e)) = unsafe_status(&dir) {
        assert_eq!(e.to_string(), "/nowhere/module.rs");
    }
}
