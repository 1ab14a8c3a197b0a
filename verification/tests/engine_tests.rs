use repo2md::snapshot::{FsNode, FileData};
use repo2md::engine::{compile_rules, generate_document, CompileError, WarnKind};

fn b(s: &str) -> Vec<u8> {
    s.as_bytes().to_vec()
}

fn text_file(name: &str, content: &str) -> FsNode {
    FsNode::Leaf { name: b(name), data: FileData::Bytes(b(content)) }
}

fn raw_file(name: &str, content: Vec<u8>) -> FsNode {
    FsNode::Leaf { name: b(name), data: FileData::Bytes(content) }
}

fn dir(name: &str, entries: Vec<FsNode>) -> FsNode {
    FsNode::Dir { name: b(name), entries }
}

fn run(
    repo: &str,
    root: &Vec<FsNode>,
    ignores: &[&str],
    includes: &[&str],
) -> (String, Vec<(String, WarnKind)>) {
    let ig: Vec<Vec<u8>> = ignores.iter().map(|s| b(s)).collect();
    let inc: Vec<Vec<u8>> = includes.iter().map(|s| b(s)).collect();
    let rs = compile_rules(&ig, &inc, root).expect("patterns should compile");
    let (doc, warns) = generate_document(&b(repo), root, &rs);
    let doc = String::from_utf8(doc).expect("document should be UTF-8");
    let warns = warns
        .into_iter()
        .map(|w| (String::from_utf8(w.path).unwrap(), w.kind))
        .collect();
    (doc, warns)
}

#[test]
fn readme_and_pruned_build() {
    let root = vec![
        text_file("README.md", "# Hi"),
        text_file(".gitignore", "build/"),
        dir("build", vec![raw_file("out.bin", vec![0xff, 0xfe, 0x00])]),
    ];
    let (doc, warns) = run("repo", &root, &[], &[]);
    let expected = "# `repo`\n\n## Directory `/`\n\n```sh\n`-- README.md    [text]\n```\n\n\
### Source file: `README.md`\n\n```markdown\n# Hi\n```\n";
    assert_eq!(doc, expected);
    assert!(warns.is_empty());
}

#[test]
fn override_keeps_file() {
    let root = vec![text_file("a.log", "x"), text_file("keep.log", "y")];
    let (doc, _) = run("logs", &root, &["*.log"], &["keep.log"]);
    let expected = "# `logs`\n\n## Directory `/`\n\n```sh\n`-- keep.log    [text]\n```\n\n\
### Source file: `keep.log`\n\n```log\ny\n```\n";
    assert_eq!(doc, expected);
}

#[test]
fn tree_order_and_glyphs() {
    let root = vec![
        raw_file("c.bin", vec![0xff]),
        dir("a", vec![]),
        text_file("b.txt", "t"),
    ];
    let (doc, warns) = run("r", &root, &[], &[]);
    assert!(doc.contains(
        "```sh\n|-- a/\n|-- b.txt    [text]\n`-- c.bin    [binary]\n```"
    ));
    assert!(!doc.contains("Source file: `c.bin`"));
    assert!(doc.contains("### Directory `a/`"));
    assert_eq!(warns, vec![("c.bin".to_string(), WarnKind::BinaryNotIgnored)]);
}

#[test]
fn identical_runs() {
    let root = vec![
        text_file("m.rs", "fn main() {}\n"),
        dir("src", vec![text_file("lib.rs", "pub fn f() {}\n")]),
    ];
    let first = run("p", &root, &["*.tmp"], &["src"]);
    let second = run("p", &root, &["*.tmp"], &["src"]);
    assert_eq!(first, second);
}

#[test]
fn order_of_input_irrelevant() {
    let fwd = vec![
        text_file("a.txt", "1"),
        text_file("z.txt", "2"),
        dir("sub", vec![text_file("inner.txt", "3"), text_file("deep.txt", "4")]),
    ];
    let rev = vec![
        dir("sub", vec![text_file("deep.txt", "4"), text_file("inner.txt", "3")]),
        text_file("z.txt", "2"),
        text_file("a.txt", "1"),
    ];
    assert_eq!(run("p", &fwd, &[], &[]), run("p", &rev, &[], &[]));
}

#[test]
fn utf8_decides_text() {
    let root = vec![raw_file("bad.dat", vec![0xc3, 0x28]), text_file("ok.txt", "fine")];
    let (doc, warns) = run("r", &root, &[], &[]);
    assert!(doc.contains("|-- bad.dat    [binary]\n"));
    assert!(doc.contains("`-- ok.txt    [text]\n"));
    assert!(!doc.contains("Source file: `bad.dat`"));
    assert_eq!(warns, vec![("bad.dat".to_string(), WarnKind::BinaryNotIgnored)]);
}

#[test]
fn embedded_content_round_trip() {
    let content = "line one\n    indented `code`\nlast";
    let root = vec![text_file("notes", content)];
    let (doc, _) = run("r", &root, &[], &[]);
    let marker = "### Source file: `notes`\n\n```\n";
    let open = doc.find(marker).expect("file section") + marker.len();
    let close = doc.rfind("\n```").expect("closing fence");
    assert_eq!(&doc[open..close], content);
}

#[test]
fn invalid_pattern_rejected() {
    let root = vec![text_file("a", "x")];
    let ig = vec![b("!")];
    let inc: Vec<Vec<u8>> = Vec::new();
    match compile_rules(&ig, &inc, &root) {
        Err(CompileError::InvalidPattern { index }) => assert_eq!(index, 0),
        Ok(_) => panic!("an empty negation must be rejected"),
    }
    let ig2 = vec![b("ok"), b("a//b")];
    match compile_rules(&ig2, &inc, &root) {
        Err(CompileError::InvalidPattern { index }) => assert_eq!(index, 1),
        Ok(_) => panic!("an empty component must be rejected"),
    }
}

#[test]
fn nested_ignore_files() {
    let root = vec![dir(
        "src",
        vec![
            text_file(".gitignore", "*.tmp"),
            text_file("x.tmp", "gone"),
            text_file("y.rs", "kept"),
        ],
    )];
    let (doc, _) = run("r", &root, &[], &[]);
    assert!(doc.contains("`-- y.rs    [text]\n"));
    assert!(!doc.contains("x.tmp"));
    assert!(doc.contains("```rust\nkept\n```"));
}

#[test]
fn negation_unignores() {
    let root = vec![
        text_file(".gitignore", "*.md\n!keep.md"),
        text_file("drop.md", "a"),
        text_file("keep.md", "b"),
    ];
    let (doc, _) = run("r", &root, &[], &[]);
    assert!(doc.contains("keep.md"));
    assert!(!doc.contains("drop.md"));
}

#[test]
fn symlink_and_failed_reads() {
    let root = vec![
        FsNode::Leaf { name: b("link"), data: FileData::Symlink },
        FsNode::Leaf { name: b("locked"), data: FileData::ReadFailed },
    ];
    let (doc, warns) = run("r", &root, &[], &[]);
    assert!(doc.contains("|-- link    [symlink]\n"));
    assert!(doc.contains("`-- locked    [binary]\n"));
    assert!(!doc.contains("Source file"));
    assert_eq!(
        warns,
        vec![
            ("link".to_string(), WarnKind::SymlinkNotIgnored),
            ("locked".to_string(), WarnKind::ReadFailure),
        ]
    );
}

#[test]
fn git_metadata_excluded() {
    let root = vec![
        dir(
            ".git",
            vec![dir("info", vec![text_file("exclude", "secret.txt")])],
        ),
        text_file("secret.txt", "s"),
        text_file("shown.txt", "v"),
    ];
    let (doc, _) = run("r", &root, &[], &[]);
    assert!(!doc.contains(".git"));
    assert!(!doc.contains("secret.txt"));
    assert!(doc.contains("`-- shown.txt    [text]\n"));
}

#[test]
fn double_star_spans_directories() {
    let root = vec![
        text_file(".gitignore", "a/**/deep.txt"),
        dir(
            "a",
            vec![dir("b", vec![text_file("deep.txt", "x"), text_file("stay.txt", "y")])],
        ),
    ];
    let (doc, _) = run("r", &root, &[], &[]);
    assert!(!doc.contains("deep.txt"));
    assert!(doc.contains("stay.txt"));
}

#[test]
fn extension_tags() {
    let root = vec![
        text_file("a.rs", "r"),
        text_file("b.py", "p"),
        text_file("Makefile", "m"),
    ];
    let (doc, _) = run("r", &root, &[], &[]);
    assert!(doc.contains("### Source file: `a.rs`\n\n```rust\nr\n```"));
    assert!(doc.contains("### Source file: `b.py`\n\n```py\np\n```"));
    assert!(doc.contains("### Source file: `Makefile`\n\n```\nm\n```"));
}

#[test]
fn directory_only_pattern_needs_directory() {
    let root = vec![
        text_file(".gitignore", "cache/"),
        text_file("cache", "a plain file named cache"),
    ];
    let (doc, _) = run("r", &root, &[], &[]);
    assert!(doc.contains("`-- cache    [text]\n"));
}

#[test]
fn unanchored_pattern_matches_at_depth() {
    let root = vec![
        text_file(".gitignore", "notes.txt"),
        text_file("notes.txt", "top"),
        dir("sub", vec![text_file("notes.txt", "deep"), text_file("other.txt", "o")]),
    ];
    let (doc, _) = run("r", &root, &[], &[]);
    assert!(!doc.contains("notes.txt"));
    assert!(doc.contains("other.txt"));
}

#[test]
fn anchored_pattern_stays_at_its_base() {
    let root = vec![
        text_file(".gitignore", "sub/gone.txt"),
        dir("sub", vec![text_file("gone.txt", "g")]),
        dir("other", vec![dir("sub", vec![text_file("gone.txt", "kept")])]),
    ];
    let (doc, _) = run("r", &root, &[], &[]);
    assert!(!doc.contains("### Source file: `sub/gone.txt`"));
    assert!(doc.contains("### Source file: `other/sub/gone.txt`"));
}

#[test]
fn override_opens_ignored_directory() {
    let root = vec![dir("vendor", vec![text_file("lib.c", "c")])];
    let (doc, _) = run("r", &root, &["vendor/"], &["vendor"]);
    assert!(doc.contains("`-- vendor/"));
    assert!(doc.contains("### Source file: `vendor/lib.c`"));
}

#[test]
fn closer_ignore_file_overrides_farther() {
    let root = vec![
        text_file(".gitignore", "*.txt"),
        dir(
            "sub",
            vec![text_file(".gitignore", "!keep.txt"), text_file("keep.txt", "k")],
        ),
        text_file("gone.txt", "g"),
    ];
    let (doc, _) = run("r", &root, &[], &[]);
    assert!(doc.contains("### Source file: `sub/keep.txt`"));
    assert!(!doc.contains("gone.txt"));
}

#[test]
fn override_wins_over_metadata_exclusion() {
    let root = vec![
        text_file(".gitignore", "*.log"),
        text_file("shown.txt", "v"),
    ];
    let (doc, _) = run("r", &root, &[], &[".gitignore"]);
    assert!(doc.contains("|-- .gitignore    [text]\n"));
    assert!(doc.contains("### Source file: `.gitignore`"));
}

#[test]
fn crlf_ignore_file_reads_like_lf() {
    let root = vec![
        text_file(".gitignore", "build/\r\n*.log\r\n"),
        dir("build", vec![text_file("x.txt", "x")]),
        text_file("a.log", "l"),
        text_file("stay.txt", "s"),
    ];
    let (doc, _) = run("r", &root, &[], &[]);
    assert!(!doc.contains("build"));
    assert!(!doc.contains("a.log"));
    assert!(doc.contains("stay.txt"));
}

#[test]
fn doubled_separator_in_override_is_tolerated() {
    let root = vec![dir("sub", vec![text_file("keep.txt", "k")])];
    let (doc, _) = run("r", &root, &["*.txt"], &["sub//keep.txt"]);
    assert!(doc.contains("### Source file: `sub/keep.txt`"));
}

#[test]
fn trailing_double_star_keeps_directory_itself() {
    let root = vec![
        dir("build", vec![raw_file("out.bin", vec![0xff])]),
        text_file("other.txt", "o"),
    ];
    let (doc, warns) = run("r", &root, &["build/**"], &[]);
    assert!(doc.contains("```sh\n|-- build/\n`-- other.txt    [text]\n```"));
    assert!(!doc.contains("out.bin"));
    assert!(doc.contains("### Directory `build/`\n\n```sh\n```"));
    assert!(warns.is_empty());
}
