use path2md::Entry;
use path2md::Path2Md;
use path2md::Path2MdWriteError;
use path2md::Path2MdWriteFileContentsError;
use path2md::WalkNode;
use path2md::WalkPathError;

fn file(name: &str, bytes: &[u8]) -> Entry {
    Entry::File { name: name.to_string(), bytes: bytes.to_vec() }
}

fn dir(name: &str, children: Vec<Entry>) -> Entry {
    Entry::Directory { name: name.to_string(), children }
}

fn rules(patterns: &[&str]) -> Option<Vec<String>> {
    Some(patterns.iter().map(|p| p.to_string()).collect())
}

fn render(cfg: &Path2Md, tree: &Entry) -> String {
    let mut out = String::new();
    cfg.write(tree, &mut out).unwrap();
    out
}

#[test]
fn directory_with_ignored_binary_lists_only_the_text_file() {
    let tree = dir(
        "proj",
        vec![file("bin.dat", &[0, 1, 2, 3, 4, 5, 6, 7, 8, 9]), file("a.txt", b"hello\n")],
    );
    let cfg = Path2Md::new("proj".to_string()).ignore(rules(&["*.dat"]));
    let out = render(&cfg, &tree);
    assert_eq!(
        out,
        "# Directory Structure\n\n    .\n    └─a.txt\n\n\na.txt\n\n    hello\n\n\n"
    );
    assert!(!out.contains("bin.dat"));
}

#[test]
fn single_text_file_root_has_no_structure_section() {
    let tree = file("notes.txt", b"first\nsecond\n");
    let cfg = Path2Md::new("notes.txt".to_string());
    let out = render(&cfg, &tree);
    assert!(!out.contains("# Directory Structure"));
    assert_eq!(out, "notes.txt\n\n    first\n    second\n\n\n");
}

#[test]
fn symlink_root_fails_with_unsupported_path_type() {
    let tree = Entry::Unsupported { name: "link".to_string() };
    let cfg = Path2Md::new("link".to_string());
    let mut out = String::from("kept");
    let r = cfg.write(&tree, &mut out);
    match r {
        Err(Path2MdWriteError::FailedToWriteStructure(WalkPathError::UnsupportedPathType(p))) => {
            assert_eq!(p, "link")
        }
        other => panic!("unexpected: {:?}", other),
    }
    assert_eq!(out, "kept");
}

#[test]
fn unsupported_node_below_the_root_names_its_path_and_keeps_the_outline_so_far() {
    let tree = dir(
        "proj",
        vec![file("a.txt", b"x\n"), dir("sub", vec![Entry::Unsupported { name: "l".to_string() }])],
    );
    let cfg = Path2Md::new("proj".to_string());
    let mut out = String::new();
    match cfg.write(&tree, &mut out) {
        Err(Path2MdWriteError::FailedToWriteStructure(WalkPathError::UnsupportedPathType(p))) => {
            assert_eq!(p, "sub/l")
        }
        other => panic!("unexpected: {:?}", other),
    }
    assert_eq!(out, "# Directory Structure\n\n    .\n    ├─a.txt\n    └─sub\n");
}

#[test]
fn unreadable_directory_fails_with_cause_and_path() {
    let tree = dir(
        "proj",
        vec![Entry::UnreadableDirectory { name: "locked".to_string(), cause: "denied".to_string() }],
    );
    let cfg = Path2Md::new("proj".to_string());
    let mut out = String::new();
    match cfg.write(&tree, &mut out) {
        Err(Path2MdWriteError::FailedToWriteStructure(WalkPathError::FailedToReadDir(c, p))) => {
            assert_eq!(c, "denied");
            assert_eq!(p, "locked");
        }
        other => panic!("unexpected: {:?}", other),
    }
    assert_eq!(out, "# Directory Structure\n\n    .\n    └─locked\n");
}

#[test]
fn unreadable_root_is_named_by_its_display_name() {
    let tree = Entry::UnreadableDirectory { name: "proj".to_string(), cause: "denied".to_string() };
    let cfg = Path2Md::new("/home/me/proj".to_string());
    let mut out = String::from("kept\n");
    match cfg.write(&tree, &mut out) {
        Err(Path2MdWriteError::FailedToWriteStructure(WalkPathError::FailedToReadDir(c, p))) => {
            assert_eq!(c, "denied");
            assert_eq!(p, "/home/me/proj");
        }
        other => panic!("unexpected: {:?}", other),
    }
    assert_eq!(out, "kept\n# Directory Structure\n\n    .\n");
}

#[test]
fn file_with_a_backslash_in_its_name_is_excluded_by_a_matching_rule() {
    let tree = dir("proj", vec![file("a\\b.dat", b"x\n"), file("c.txt", b"y\n")]);
    let cfg = Path2Md::new("proj".to_string()).ignore(rules(&["*.dat"]));
    assert_eq!(
        render(&cfg, &tree),
        "# Directory Structure\n\n    .\n    └─c.txt\n\n\nc.txt\n\n    y\n\n\n"
    );
}

#[test]
fn ignored_directory_hides_everything_below_it() {
    let tree = dir(
        "proj",
        vec![
            dir(
                "target",
                vec![
                    file("big.txt", b"secret\n"),
                    Entry::Unsupported { name: "link".to_string() },
                    Entry::UnreadableDirectory { name: "x".to_string(), cause: "c".to_string() },
                ],
            ),
            file("main.rs", b"fn main() {}\n"),
        ],
    );
    let cfg = Path2Md::new("proj".to_string()).ignore(rules(&["target"]));
    let out = render(&cfg, &tree);
    assert_eq!(
        out,
        "# Directory Structure\n\n    .\n    └─main.rs\n\n\nmain.rs\n\n    fn main() {}\n\n\n"
    );
    assert!(!out.contains("target"));
    assert!(!out.contains("secret"));
}

#[test]
fn files_come_before_directories_and_names_are_sorted() {
    let tree = dir(
        "proj",
        vec![
            dir("b", vec![file("y.txt", b"y\n"), file("x.txt", b"x\n")]),
            file("z.txt", b"z\n"),
            dir("a", vec![]),
            file("c.txt", b"c\n"),
        ],
    );
    let cfg = Path2Md::new("proj".to_string());
    let out = render(&cfg, &tree);
    let expected = "# Directory Structure\n\n\
        \x20   .\n\
        \x20   ├─c.txt\n\
        \x20   ├─z.txt\n\
        \x20   ├─a\n\
        \x20   └─b\n\
        \x20   │ ├─x.txt\n\
        \x20   │ └─y.txt\n\
        \n\n\
        c.txt\n\n    c\n\n\n\
        z.txt\n\n    z\n\n\n\
        b/x.txt\n\n    x\n\n\n\
        b/y.txt\n\n    y\n\n\n";
    assert_eq!(out, expected);
}

#[test]
fn last_glyph_goes_to_the_last_surviving_sibling() {
    let tree = dir("proj", vec![file("a.txt", b"a\n"), file("b.txt", b"b\n"), file("c.log", b"c\n")]);
    let cfg = Path2Md::new("proj".to_string()).ignore(rules(&["*.log"])).structure_only(true);
    assert_eq!(render(&cfg, &tree), "# Directory Structure\n\n    .\n    ├─a.txt\n    └─b.txt\n\n\n");
}

#[test]
fn structure_only_writes_no_file_blocks() {
    let tree = dir("proj", vec![file("a.txt", b"hello\n"), file("b.bin", &[0, 159, 146, 150])]);
    let cfg = Path2Md::new("proj".to_string()).structure_only(true);
    let out = render(&cfg, &tree);
    assert_eq!(out, "# Directory Structure\n\n    .\n    ├─a.txt\n    └─b.bin\n\n\n");
    assert!(!out.contains("hello"));
    assert!(!out.contains("bytes"));
}

#[test]
fn structure_only_on_a_single_file_writes_nothing() {
    let tree = file("notes.txt", b"hello\n");
    let cfg = Path2Md::new("notes.txt".to_string()).structure_only(true);
    assert_eq!(render(&cfg, &tree), "");
}

#[test]
fn ignored_root_leaves_an_empty_outline() {
    let tree = dir("proj", vec![file("a.txt", b"hello\n")]);
    let cfg = Path2Md::new("proj".to_string()).ignore(rules(&["*"]));
    assert_eq!(render(&cfg, &tree), "# Directory Structure\n\n\n\n");
}

#[test]
fn binary_file_is_summarised_with_its_size() {
    let tree = file("b.bin", &[0, 1, 2, 3, 4, 5, 6, 7, 8, 9]);
    let cfg = Path2Md::new("b.bin".to_string());
    assert_eq!(
        render(&cfg, &tree),
        "b.bin\n\n    Arbitrary Binary Data (application/octet-stream)\n    ... 10 bytes ...\n\n\n"
    );
}

#[test]
fn png_signature_is_named_in_the_summary() {
    let bytes = b"\x89\x50\x4E\x47\x0D\x0A\x1A\x0A";
    let cfg = Path2Md::new("root".to_string());
    let mut out = String::new();
    cfg.write_file_contents("img/logo.png", bytes, &mut out).unwrap();
    assert_eq!(
        out,
        "img/logo.png\n\n    Portable Network Graphics (image/png)\n    ... 8 bytes ...\n\n\n"
    );
}

#[test]
fn empty_file_is_summarised_as_empty() {
    let cfg = Path2Md::new("root".to_string());
    let mut out = String::new();
    cfg.write_file_contents("empty", b"", &mut out).unwrap();
    assert_eq!(out, "empty\n\n    Empty (application/x-empty)\n    ... 0 bytes ...\n\n\n");
}

#[test]
fn unrecognised_printable_content_is_text() {
    let cfg = Path2Md::new("root".to_string());
    let mut out = String::new();
    cfg.write_file_contents("data.xyz", b"just some words", &mut out).unwrap();
    assert_eq!(out, "data.xyz\n\n    just some words\n\n\n");
}

#[test]
fn root_file_header_is_the_root_display_name() {
    let cfg = Path2Md::new("/home/me/notes.txt".to_string());
    let mut out = String::from("before\n");
    cfg.write_file_contents("", b"hi\n", &mut out).unwrap();
    assert_eq!(out, "before\n/home/me/notes.txt\n\n    hi\n\n\n");
}

#[test]
fn textual_format_with_broken_utf8_fails_and_keeps_what_was_written() {
    let mut bytes = Vec::new();
    for _ in 0..20 {
        bytes.extend_from_slice(b"an ordinary line of text\n");
    }
    bytes.push(0xff);
    bytes.push(b'\n');
    let tree = dir(
        "proj",
        vec![file("c.txt", b"never shown\n"), file("a.txt", b"fine\n"), file("b.txt", &bytes)],
    );
    let cfg = Path2Md::new("proj".to_string());
    let mut out = String::from("kept");
    match cfg.write(&tree, &mut out) {
        Err(Path2MdWriteError::FailedToWriteFileContents(
            Path2MdWriteFileContentsError::FailedToWrite(p),
        )) => assert_eq!(p, "b.txt"),
        other => panic!("unexpected: {:?}", other),
    }
    assert_eq!(
        out,
        "kept# Directory Structure\n\n    .\n    ├─a.txt\n    ├─b.txt\n    └─c.txt\n\n\na.txt\n\n    fine\n\n\n"
    );
}

#[test]
fn walk_reports_depth_and_last_flags() {
    let tree = dir("proj", vec![dir("d", vec![file("f", b"x\n")]), file("a", b"y\n")]);
    let cfg = Path2Md::new("proj".to_string());
    let (nodes, outcome) = cfg.walk(&tree);
    assert!(outcome.is_ok());
    let seen: Vec<(String, usize, bool)> =
        nodes.iter().map(|n| (n.path.clone(), n.depth, n.is_last)).collect();
    assert_eq!(
        seen,
        vec![
            ("".to_string(), 0, true),
            ("a".to_string(), 1, false),
            ("d".to_string(), 1, true),
            ("d/f".to_string(), 2, true),
        ]
    );
}

#[test]
fn walk_hands_back_what_it_visited_before_a_failure() {
    let tree = dir(
        "proj",
        vec![
            dir("z", vec![file("never", b"")]),
            dir("d", vec![file("f", b""), Entry::Unsupported { name: "g".to_string() }]),
            file("a", b""),
        ],
    );
    let cfg = Path2Md::new("proj".to_string());
    let (nodes, outcome) = cfg.walk(&tree);
    match outcome {
        Err(WalkPathError::UnsupportedPathType(p)) => assert_eq!(p, "d/g"),
        other => panic!("unexpected: {:?}", other),
    }
    let seen: Vec<String> = nodes.iter().map(|n| n.path.clone()).collect();
    assert_eq!(seen, vec!["".to_string(), "a".to_string(), "d".to_string(), "d/f".to_string()]);
}

#[test]
fn surviving_order_skips_excluded_and_sorts() {
    let children = vec![
        dir("src", vec![]),
        file("b.tmp", b""),
        file("b.rs", b""),
        file("a.rs", b""),
        dir("doc", vec![]),
    ];
    let cfg = Path2Md::new("r".to_string()).ignore(rules(&["*.tmp"]));
    assert_eq!(cfg.surviving_order(&children, ""), vec![3, 2, 4, 0]);
}

#[test]
fn rules_match_the_path_relative_to_the_root() {
    let cfg = Path2Md::new("/abs/proj".to_string()).ignore(rules(&["src/*.rs", "proj"]));
    assert!(!cfg.should_walk_path("src/main.rs"));
    assert!(cfg.should_walk_path("main.rs"));
    assert!(cfg.should_walk_path(""));
    assert!(cfg.should_walk_path("docs/readme.md"));
    assert!(Path2Md::new("r".to_string()).should_walk_path("anything"));
}

#[test]
fn builders_set_their_fields() {
    let cfg = Path2Md::new("r".to_string());
    assert_eq!(cfg.root, "r");
    assert!(cfg.ignore.is_none());
    assert!(!cfg.structure_only);
    let cfg = cfg.ignore(rules(&["a", "b"])).structure_only(true);
    assert_eq!(cfg.root, "r");
    assert_eq!(cfg.ignore, Some(vec!["a".to_string(), "b".to_string()]));
    assert!(cfg.structure_only);
}

#[test]
fn report_for_a_walk_that_was_stopped_keeps_the_outline_open() {
    let root = dir("proj", vec![]);
    let a = file("a.txt", b"hello\n");
    let nodes = vec![
        WalkNode { path: String::new(), depth: 0, is_last: true, entry: &root },
        WalkNode { path: "a.txt".to_string(), depth: 1, is_last: false, entry: &a },
    ];
    let cfg = Path2Md::new("proj".to_string());
    let mut out = String::new();
    let stopped = Err(WalkPathError::UnsupportedPathType("b".to_string()));
    match cfg.write_walked(true, &nodes, stopped, &mut out) {
        Err(Path2MdWriteError::FailedToWriteStructure(WalkPathError::UnsupportedPathType(p))) => {
            assert_eq!(p, "b")
        }
        other => panic!("unexpected: {:?}", other),
    }
    assert_eq!(out, "# Directory Structure\n\n    .\n    ├─a.txt\n");
}

#[test]
fn report_for_a_finished_walk_has_outline_and_blocks() {
    let root = dir("proj", vec![]);
    let a = file("a.txt", b"hello\n");
    let nodes = vec![
        WalkNode { path: String::new(), depth: 0, is_last: true, entry: &root },
        WalkNode { path: "a.txt".to_string(), depth: 1, is_last: true, entry: &a },
    ];
    let cfg = Path2Md::new("proj".to_string());
    let mut out = String::new();
    cfg.write_walked(true, &nodes, Ok(()), &mut out).unwrap();
    assert_eq!(
        out,
        "# Directory Structure\n\n    .\n    └─a.txt\n\n\na.txt\n\n    hello\n\n\n"
    );
    let mut out = String::new();
    cfg.write_walked(false, &nodes, Ok(()), &mut out).unwrap();
    assert_eq!(out, "a.txt\n\n    hello\n\n\n");
    let mut out = String::new();
    Path2Md::new("proj".to_string())
        .structure_only(true)
        .write_walked(true, &nodes, Ok(()), &mut out)
        .unwrap();
    assert_eq!(out, "# Directory Structure\n\n    .\n    └─a.txt\n\n\n");
}

#[test]
fn without_rules_a_name_with_a_backslash_is_rendered_as_it_is() {
    let tree = dir("proj", vec![file("a\\b.txt", b"x\n")]);
    let cfg = Path2Md::new("proj".to_string());
    assert_eq!(
        render(&cfg, &tree),
        "# Directory Structure\n\n    .\n    └─a\\b.txt\n\n\na\\b.txt\n\n    x\n\n\n"
    );
}
