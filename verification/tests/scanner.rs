use xorb::cli::{Cli, OutputFormat};
use xorb::git::{parse_diff_output, parse_status_output};
use xorb::scanner::{
    assemble_scan, classify_content, exceeds_limit, exclude_pattern, include_pattern,
    override_globs, single_file_scan, ScannedItem,
};
use xorb::tree::FileNode;

fn text_file(path: &str, text: &str) -> ScannedItem {
    ScannedItem::File {
        rel_path: path.to_string(),
        content: Some(text.to_string()),
    }
}

fn config() -> Cli {
    Cli {
        path: ".".to_string(),
        format: OutputFormat::default(),
        output: None,
        stdout: false,
        no_clipboard: false,
        hidden: false,
        no_ignore: false,
        max_size_kb: 1024,
        include_globs: None,
        exclude_globs: None,
        max_depth: None,
        diff: None,
        quiet: false,
    }
}

#[test]
fn assembled_tree_and_files() {
    let items = vec![
        text_file("src/main.rs", "fn main() {}"),
        ScannedItem::Dir("src".to_string()),
        text_file("README.md", "hi"),
        ScannedItem::Dir("empty".to_string()),
        ScannedItem::File {
            rel_path: "assets/img/logo.png".to_string(),
            content: None,
        },
        text_file("src/lib.rs", "pub fn f() {}"),
        text_file("a-b", "x"),
        text_file("a/b", "y"),
    ];
    let result = assemble_scan(items);
    let expected_tree = "\
├── a/
│   └── b
├── assets/
│   └── img/
│       └── logo.png
├── empty/
├── src/
│   ├── lib.rs
│   └── main.rs
├── README.md
└── a-b
";
    assert_eq!(result.root_node.render_tree(), expected_tree);
    match &result.root_node {
        FileNode::Directory { name, rel_path, .. } => {
            assert_eq!(name, ".");
            assert_eq!(rel_path, "");
        }
        FileNode::File { .. } => panic!("the root is a directory"),
    }
    let paths: Vec<&str> = result.files.iter().map(|f| f.rel_path.as_str()).collect();
    assert_eq!(
        paths,
        vec!["README.md", "a/b", "a-b", "assets/img/logo.png", "src/lib.rs", "src/main.rs"]
    );
    assert_eq!(result.files[0].content.as_deref(), Some("hi"));
    assert_eq!(result.files[3].content, None);
}

#[test]
fn nested_directory_keeps_its_path_and_name() {
    let result = assemble_scan(vec![text_file("x/y/z.txt", "z")]);
    match &result.root_node {
        FileNode::Directory { children, .. } => {
            assert_eq!(children.len(), 1);
            match &children[0] {
                FileNode::Directory { name, rel_path, children } => {
                    assert_eq!(name, "x");
                    assert_eq!(rel_path, "x");
                    match &children[0] {
                        FileNode::Directory { name, rel_path, children } => {
                            assert_eq!(name, "y");
                            assert_eq!(rel_path, "x/y");
                            assert_eq!(
                                children[0],
                                FileNode::File {
                                    name: "z.txt".to_string(),
                                    rel_path: "x/y/z.txt".to_string(),
                                    is_binary: false
                                }
                            );
                        }
                        FileNode::File { .. } => panic!("y is a directory"),
                    }
                }
                FileNode::File { .. } => panic!("x is a directory"),
            }
        }
        FileNode::File { .. } => panic!("the root is a directory"),
    }
}

#[test]
fn empty_scan_is_an_empty_root() {
    let result = assemble_scan(vec![]);
    assert_eq!(result.root_node.render_tree(), "");
    assert!(result.files.is_empty());
    assert_eq!(
        result.root_node,
        FileNode::Directory {
            name: ".".to_string(),
            rel_path: "".to_string(),
            children: vec![]
        }
    );
}

#[test]
fn content_classification() {
    assert_eq!(classify_content(b"hello".to_vec()), (false, Some("hello".to_string())));
    assert_eq!(classify_content(b"a\0b".to_vec()), (true, None));
    assert_eq!(classify_content(vec![0xff, 0xfe, 0x41]), (true, None));
    assert_eq!(classify_content("héllo".as_bytes().to_vec()), (false, Some("héllo".to_string())));
    assert_eq!(classify_content(vec![]), (false, Some(String::new())));
}

#[test]
fn size_limit() {
    assert!(!exceeds_limit(0, Some(u64::MAX)));
    assert!(exceeds_limit(1024, Some(1025)));
    assert!(!exceeds_limit(1024, Some(1024)));
    assert!(!exceeds_limit(1024, None));
}

#[test]
fn glob_patterns() {
    assert_eq!(include_pattern(&"*.rs".to_string()), "*.rs");
    assert_eq!(include_pattern(&"/src/**".to_string()), "/src/**");
    assert_eq!(include_pattern(&"src/*.rs".to_string()), "**/src/*.rs");
    assert_eq!(include_pattern(&"".to_string()), "**/");
    assert_eq!(exclude_pattern(&"tests/*".to_string()), "!tests/*");
    assert_eq!(exclude_pattern(&"!*.tmp".to_string()), "!*.tmp");
    let mut c = config();
    assert!(override_globs(&c).is_empty());
    c.include_globs = Some(vec!["*.rs".to_string(), "docs".to_string()]);
    c.exclude_globs = Some(vec!["target".to_string()]);
    assert_eq!(override_globs(&c), vec!["*.rs", "**/docs", "!target"]);
}

#[test]
fn limits_and_stdout_choice() {
    let mut c = config();
    assert_eq!(c.max_bytes(), 1024 * 1024);
    c.max_size_kb = 0;
    assert_eq!(c.max_bytes(), 0);
    c.max_size_kb = u64::MAX / 1024;
    assert_eq!(c.max_bytes(), (u64::MAX / 1024) * 1024);
    c.max_size_kb = (1u64 << 60) + 1;
    assert_eq!(c.max_bytes(), u64::MAX);
    assert!(!exceeds_limit(c.max_bytes(), Some(u64::MAX)));
    assert!(!c.prints_to_stdout(true));
    assert!(c.prints_to_stdout(false));
    c.output = Some("out.md".to_string());
    assert!(!c.prints_to_stdout(false));
    c.stdout = true;
    assert!(c.prints_to_stdout(true));
    assert_eq!(OutputFormat::default(), OutputFormat::Markdown);
}

#[test]
fn git_diff_names() {
    let out = "src/main.rs\n  \n README.md \r\nlast";
    assert_eq!(parse_diff_output(out), vec!["src/main.rs", "README.md", "last"]);
    assert!(parse_diff_output("").is_empty());
    assert!(parse_diff_output("\n\n").is_empty());
}

#[test]
fn git_status_paths() {
    let out = " M src/lib.rs\n?? \"new file.txt\"\nA  a\n??\n";
    assert_eq!(
        parse_status_output(out),
        vec!["src/lib.rs", "new file.txt", "a"]
    );
    assert_eq!(
        parse_status_output(" M src/a.rs\n?? new.rs\n"),
        vec!["src/a.rs", "new.rs"]
    );
    // The cut is after three characters of the line as git printed it.
    assert_eq!(parse_status_output(" M  x\n"), vec![" x"]);
    assert_eq!(parse_status_output(" M \u{e9}.rs\n"), vec!["\u{e9}.rs"]);
    assert_eq!(parse_status_output("\u{e9}\u{e9}x\n"), Vec::<String>::new());
    assert_eq!(parse_status_output("\u{e9}\u{e9}xyz\n"), vec!["yz"]);
}

#[test]
fn same_files_in_another_order_give_the_same_scan() {
    let items = || {
        vec![
            text_file("b/x.rs", "x"),
            ScannedItem::Dir("b".to_string()),
            text_file("a.txt", "a"),
            text_file("b/c/y.rs", "y"),
            ScannedItem::Dir("b/c".to_string()),
        ]
    };
    let mut reversed = items();
    reversed.reverse();
    let one = assemble_scan(items());
    let other = assemble_scan(reversed);
    assert_eq!(one.root_node, other.root_node);
    let paths = |r: &xorb::scanner::ScanResult| -> Vec<String> {
        r.files.iter().map(|f| f.rel_path.clone()).collect()
    };
    assert_eq!(paths(&one), paths(&other));
    assert_eq!(paths(&one), vec!["a.txt", "b/c/y.rs", "b/x.rs"]);
}

#[test]
fn single_file_is_the_whole_scan() {
    let r = single_file_scan(Some("notes.md".to_string()), Some("# hi".to_string()));
    assert_eq!(
        r.root_node,
        FileNode::File {
            name: "notes.md".to_string(),
            rel_path: "notes.md".to_string(),
            is_binary: false,
        }
    );
    assert_eq!(r.files.len(), 1);
    assert_eq!(r.files[0].rel_path, "notes.md");
    assert_eq!(r.files[0].content.as_deref(), Some("# hi"));

    let r = single_file_scan(None, None);
    assert_eq!(
        r.root_node,
        FileNode::File {
            name: "file".to_string(),
            rel_path: "file".to_string(),
            is_binary: true,
        }
    );
    assert_eq!(r.files.len(), 1);
    assert_eq!(r.files[0].rel_path, "file");
    assert!(r.files[0].content.is_none());
}
