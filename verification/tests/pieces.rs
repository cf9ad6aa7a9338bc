use path2md::entry::sorts_before;
use path2md::format::classify;
use path2md::format::detect_format;
use path2md::ignore::is_excluded;
use path2md::ignore::is_hit;
use path2md::ignore::is_portable;
use path2md::render::render_file;
use path2md::render::write_structure_line;
use path2md::strip_root;
use path2md::text::chars_of;
use path2md::text::is_whitespace;
use path2md::text::push_decimal;
use path2md::text::push_indented_lines;
use path2md::text::push_range;
use path2md::walk::join_path;
use path2md::Entry;
use path2md::Path2MdWriteFileContentsError;
use path2md::RenderedFormat;
use path2md::StripRootError;

fn lines_of(text: &str) -> String {
    let mut out = String::new();
    push_indented_lines(&mut out, &text.chars().collect());
    out
}

#[test]
fn strip_root_gives_the_path_relative_to_the_root() {
    assert_eq!(strip_root("/a/b", "/a/b/c.txt").unwrap(), "c.txt");
    assert_eq!(strip_root("proj", "proj/sub/a.txt").unwrap(), "sub/a.txt");
    assert_eq!(strip_root("proj/", "proj/sub/a.txt").unwrap(), "sub/a.txt");
    assert_eq!(strip_root("/", "/etc/hosts").unwrap(), "etc/hosts");
    assert_eq!(strip_root("", "x").unwrap(), "x");
    assert_eq!(strip_root("same", "same").unwrap(), "");
    assert_eq!(strip_root("proj", "proj/").unwrap(), "");
}

#[test]
fn strip_root_rejects_a_path_outside_the_root() {
    match strip_root("/a/b", "/a/c/d") {
        Err(StripRootError::PrefixDoesntMatch(r, p)) => {
            assert_eq!(r, "/a/b");
            assert_eq!(p, "/a/c/d");
        }
        other => panic!("unexpected: {:?}", other),
    }
    assert!(strip_root("longer", "long").is_err());
}

#[test]
fn strip_root_rejects_a_sibling_that_shares_a_prefix() {
    match strip_root("pro", "proj/a.txt") {
        Err(StripRootError::PrefixDoesntMatch(r, p)) => {
            assert_eq!(r, "pro");
            assert_eq!(p, "proj/a.txt");
        }
        other => panic!("unexpected: {:?}", other),
    }
    assert!(strip_root("/a/b", "/a/bc").is_err());
}

#[test]
fn lines_are_trimmed_on_the_right_only() {
    assert_eq!(lines_of("  a  \n\tb\t\r\nc"), "      a\n    \tb\n    c\n");
}

#[test]
fn line_count_is_kept() {
    assert_eq!(lines_of(""), "");
    assert_eq!(lines_of("\n"), "    \n");
    assert_eq!(lines_of("a\n\n"), "    a\n    \n");
    assert_eq!(lines_of("a\n\nb"), "    a\n    \n    b\n");
    assert_eq!(lines_of("one \ntwo\u{3000}\nthree\u{a0} \n"), "    one\n    two\n    three\n");
}

#[test]
fn whitespace_is_the_unicode_property() {
    for c in ['\t', '\n', '\u{b}', '\u{c}', '\r', ' ', '\u{85}', '\u{a0}', '\u{1680}', '\u{2000}',
        '\u{200a}', '\u{2028}', '\u{2029}', '\u{202f}', '\u{205f}', '\u{3000}']
    {
        assert!(is_whitespace(c));
    }
    for c in ['a', '\u{200b}', '\u{8}', '\u{e}', '\u{feff}', '0'] {
        assert!(!is_whitespace(c));
    }
    for u in 0..0x3100u32 {
        if let Some(c) = char::from_u32(u) {
            assert_eq!(is_whitespace(c), c.is_whitespace());
        }
    }
}

#[test]
fn decimal_digits_are_exact() {
    let mut out = String::from("n=");
    push_decimal(&mut out, 0);
    out.push(',');
    push_decimal(&mut out, 7);
    out.push(',');
    push_decimal(&mut out, 10);
    out.push(',');
    push_decimal(&mut out, 1234567890);
    assert_eq!(out, "n=0,7,10,1234567890");
}

#[test]
fn chars_and_ranges() {
    assert_eq!(chars_of("héllo"), vec!['h', 'é', 'l', 'l', 'o']);
    let mut out = String::from(">");
    push_range(&mut out, &vec!['a', 'b', 'c', 'd'], 1, 3);
    assert_eq!(out, ">bc");
}

#[test]
fn structure_lines_have_markers_and_glyphs() {
    let mut out = String::new();
    write_structure_line(".", 0, true, &mut out);
    write_structure_line("a", 1, false, &mut out);
    write_structure_line("b", 1, true, &mut out);
    write_structure_line("c", 3, false, &mut out);
    write_structure_line("d", 2, true, &mut out);
    assert_eq!(out, "    .\n    ├─a\n    └─b\n    │ │ ├─c\n    │ └─d\n");
}

#[test]
fn media_type_decides_between_text_and_summary() {
    assert!(matches!(
        classify("Plain Text".to_string(), "text/plain".to_string()),
        RenderedFormat::PlainText
    ));
    assert!(matches!(classify("X".to_string(), "text".to_string()), RenderedFormat::PlainText));
    match classify("Portable Document Format".to_string(), "application/pdf".to_string()) {
        RenderedFormat::Binary { name, media_type } => {
            assert_eq!(name, "Portable Document Format");
            assert_eq!(media_type, "application/pdf");
        }
        other => panic!("unexpected: {:?}", other),
    }
    assert!(matches!(
        classify("Y".to_string(), "tex".to_string()),
        RenderedFormat::Binary { .. }
    ));
    assert!(matches!(
        classify("Z".to_string(), "application/text".to_string()),
        RenderedFormat::Binary { .. }
    ));
}

#[test]
fn detection_looks_at_the_bytes() {
    assert!(matches!(detect_format(b"hello\n"), RenderedFormat::PlainText));
    match detect_format(b"%PDF-1.4\n") {
        RenderedFormat::Binary { name, media_type } => {
            assert_eq!(name, "Portable Document Format");
            assert_eq!(media_type, "application/pdf");
        }
        other => panic!("unexpected: {:?}", other),
    }
    match detect_format(&[0u8; 32]) {
        RenderedFormat::Binary { media_type, .. } => {
            assert_eq!(media_type, "application/octet-stream")
        }
        other => panic!("unexpected: {:?}", other),
    }
}

#[test]
fn render_file_follows_the_given_format() {
    let mut out = String::new();
    render_file("h", &RenderedFormat::PlainText, "é \nb".as_bytes(), &mut out).unwrap();
    assert_eq!(out, "h\n\n    é\n    b\n\n\n");
    let mut out = String::new();
    let fmt = RenderedFormat::Binary { name: "N".to_string(), media_type: "m/t".to_string() };
    render_file("h", &fmt, b"text all the same", &mut out).unwrap();
    assert_eq!(out, "h\n\n    N (m/t)\n    ... 17 bytes ...\n\n\n");
}

#[test]
fn render_file_rejects_text_that_is_no_utf8() {
    let mut out = String::from("kept");
    match render_file("dir/f", &RenderedFormat::PlainText, &[b'a', 0xff], &mut out) {
        Err(Path2MdWriteFileContentsError::FailedToWrite(p)) => assert_eq!(p, "dir/f"),
        other => panic!("unexpected: {:?}", other),
    }
    assert_eq!(out, "kept");
}

#[test]
fn globs_exclude_what_they_match() {
    let patterns = vec!["*.dat".to_string(), "build/**".to_string(), "k[!e]y".to_string()];
    assert!(is_excluded(&patterns, "bin.dat"));
    assert!(is_excluded(&patterns, "build/x/y"));
    assert!(is_excluded(&patterns, "kby"));
    assert!(!is_excluded(&patterns, "a.txt"));
    assert!(!is_excluded(&patterns, "key"));
    assert!(!is_excluded(&Vec::new(), "a.txt"));
}

#[test]
fn invalid_rules_exclude_nothing() {
    assert!(!is_excluded(&vec!["[".to_string()], "["));
    assert!(!is_excluded(&vec!["a***".to_string()], "a"));
    assert!(is_excluded(&vec!["[".to_string(), "*".to_string()], "ab"));
}

#[test]
fn texts_with_a_backslash_are_still_matched() {
    assert!(is_excluded(&vec!["*.dat".to_string()], "a\\b.dat"));
    assert!(is_excluded(&vec!["*".to_string()], "a\\b"));
    assert!(is_excluded(&vec!["a\\b".to_string()], "a\\b"));
    assert!(!is_excluded(&vec!["*.dat".to_string()], "a\\b.txt"));
    assert!(is_excluded(&vec!["x\\y".to_string(), "*.txt".to_string()], "a.txt"));
    assert!(!is_excluded(&vec!["x\\y".to_string()], "a.txt"));
}

#[test]
fn hits_and_portability() {
    assert!(is_hit(Some(true)));
    assert!(!is_hit(Some(false)));
    assert!(!is_hit(None));
    assert!(is_portable("a/b.c"));
    assert!(is_portable(""));
    assert!(!is_portable("a\\b"));
}

#[test]
fn paths_are_joined_with_a_slash() {
    assert_eq!(join_path("", "a"), "a");
    assert_eq!(join_path("a", "b"), "a/b");
    assert_eq!(join_path("a/b", "c.txt"), "a/b/c.txt");
}

#[test]
fn sibling_order_is_files_first_then_bytes_of_the_name() {
    let f = |n: &str| Entry::File { name: n.to_string(), bytes: Vec::new() };
    let d = |n: &str| Entry::Directory { name: n.to_string(), children: Vec::new() };
    assert!(sorts_before(&f("z"), &d("a")));
    assert!(!sorts_before(&d("a"), &f("z")));
    assert!(sorts_before(&f("a"), &f("b")));
    assert!(!sorts_before(&f("b"), &f("a")));
    assert!(!sorts_before(&f("a"), &f("a")));
    assert!(sorts_before(&f("a"), &f("ab")));
    assert!(!sorts_before(&f("ab"), &f("a")));
    assert!(sorts_before(&f("Z"), &f("a")));
    assert!(sorts_before(&f("z"), &f("é")));
    assert!(sorts_before(
        &Entry::UnreadableDirectory { name: "a".to_string(), cause: String::new() },
        &d("b")
    ));
    assert!(sorts_before(&Entry::Unsupported { name: "z".to_string() }, &d("a")));
    assert_eq!(d("x").name(), "x");
    assert!(d("x").is_directory());
    assert!(!f("x").is_directory());
}
