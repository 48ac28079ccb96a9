use xorb::formatter::{detect_language, estimate_tokens, format_bundle};
use xorb::scanner::{ScanResult, ScannedFile};
use xorb::tree::FileNode;

#[test]
fn test_language_detection() {
    assert_eq!(detect_language("main.rs"), "rust");
    assert_eq!(detect_language("app.tsx"), "tsx");
    assert_eq!(detect_language("Cargo.toml"), "toml");
    assert_eq!(detect_language("unknown.xyz"), "");
}

#[test]
fn test_format_bundle() {
    let root_node = FileNode::Directory {
        name: ".".to_string(),
        rel_path: ".".to_string(),
        children: vec![FileNode::File {
            name: "main.rs".to_string(),
            rel_path: "main.rs".to_string(),
            is_binary: false,
        }],
    };

    let files = vec![ScannedFile {
        rel_path: "main.rs".to_string(),
        content: Some("fn main() {}".to_string()),
    }];

    let result = ScanResult { root_node, files };
    let formatted = format_bundle(&result);

    assert!(formatted.contains("## Repository Structure"));
    assert!(formatted.contains("└── main.rs"));
    assert!(formatted.contains("## Files"));
    assert!(formatted.contains("# File: main.rs\n```rust\nfn main() {}\n```"));
}

#[test]
fn language_of_paths_with_directories_and_dots() {
    assert_eq!(detect_language("src/lib.rs"), "rust");
    assert_eq!(detect_language("web/index.HTML"), "");
    assert_eq!(detect_language("web/index.htm"), "html");
    assert_eq!(detect_language(".gitignore"), "");
    assert_eq!(detect_language("archive.tar.gz"), "");
    assert_eq!(detect_language("a/b.c/"), "c");
    assert_eq!(detect_language("a/b.py/."), "python");
    assert_eq!(detect_language("Makefile"), "");
    assert_eq!(detect_language("x."), "");
    assert_eq!(detect_language(".."), "");
    assert_eq!(detect_language(""), "");
    assert_eq!(detect_language("..py"), "python");
    assert_eq!(detect_language("lib.hpp"), "cpp");
    assert_eq!(detect_language("build.kts"), "kotlin");
    assert_eq!(detect_language("pic.svg"), "xml");
    assert_eq!(detect_language("api.proto"), "protobuf");
    assert_eq!(detect_language("run.zsh"), "bash");
}

#[test]
fn token_estimate_is_a_quarter_of_the_bytes() {
    assert_eq!(estimate_tokens(""), 0);
    assert_eq!(estimate_tokens("abc"), 0);
    assert_eq!(estimate_tokens("abcdefgh"), 2);
    // "é" takes two bytes, "└" three.
    assert_eq!(estimate_tokens("éé"), 1);
    assert_eq!(estimate_tokens("└──"), 2);
}

#[test]
fn bundle_exact_text_with_skipped_file() {
    let root_node = FileNode::Directory {
        name: ".".to_string(),
        rel_path: "".to_string(),
        children: vec![
            FileNode::File {
                name: "a.py".to_string(),
                rel_path: "a.py".to_string(),
                is_binary: false,
            },
            FileNode::File {
                name: "b.bin".to_string(),
                rel_path: "b.bin".to_string(),
                is_binary: true,
            },
        ],
    };
    let files = vec![
        ScannedFile {
            rel_path: "a.py".to_string(),
            content: Some("print(1)\n\n  \t".to_string()),
        },
        ScannedFile {
            rel_path: "b.bin".to_string(),
            content: None,
        },
    ];
    let formatted = format_bundle(&ScanResult { root_node, files });
    let expected = "## Repository Structure\n\n```\n├── a.py\n└── b.bin\n```\n\n## Files\n\n\
# File: a.py\n```python\nprint(1)\n```\n\n\
# File: b.bin (binary or skipped)\n```\n<skipped>\n```\n\n";
    assert_eq!(formatted, expected);
}

#[test]
fn bundle_of_a_single_file() {
    let root_node = FileNode::File {
        name: "notes.md".to_string(),
        rel_path: "notes.md".to_string(),
        is_binary: false,
    };
    let files = vec![ScannedFile {
        rel_path: "notes.md".to_string(),
        content: Some("# Notes".to_string()),
    }];
    let formatted = format_bundle(&ScanResult { root_node, files });
    assert_eq!(
        formatted,
        "## Repository Structure\n\n```\nnotes.md\n```\n\n## Files\n\n# File: notes.md\n```markdown\n# Notes\n```\n\n"
    );
}
