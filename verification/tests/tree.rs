use xorb::tree::FileNode;

fn file(name: &str, rel_path: &str) -> FileNode {
    FileNode::File {
        name: name.to_string(),
        rel_path: rel_path.to_string(),
        is_binary: false,
    }
}

fn dir(name: &str, rel_path: &str, children: Vec<FileNode>) -> FileNode {
    FileNode::Directory {
        name: name.to_string(),
        rel_path: rel_path.to_string(),
        children,
    }
}

#[test]
fn test_tree_rendering_and_sorting() {
    let mut root = FileNode::Directory {
        name: ".".to_string(),
        rel_path: ".".to_string(),
        children: vec![
            FileNode::File {
                name: "b.txt".to_string(),
                rel_path: "b.txt".to_string(),
                is_binary: false,
            },
            FileNode::Directory {
                name: "src".to_string(),
                rel_path: "src".to_string(),
                children: vec![
                    FileNode::File {
                        name: "main.rs".to_string(),
                        rel_path: "src/main.rs".to_string(),
                        is_binary: false,
                    },
                    FileNode::File {
                        name: "lib.rs".to_string(),
                        rel_path: "src/lib.rs".to_string(),
                        is_binary: false,
                    },
                ],
            },
            FileNode::File {
                name: "a.txt".to_string(),
                rel_path: "a.txt".to_string(),
                is_binary: false,
            },
        ],
    };

    root.sort_children();

    let rendered = root.render_tree();
    let expected = "\
├── src/
│   ├── lib.rs
│   └── main.rs
├── a.txt
└── b.txt
";
    assert_eq!(rendered, expected);
}

#[test]
fn name_and_kind() {
    let f = file("a.txt", "x/a.txt");
    let d = dir("x", "x", vec![]);
    assert_eq!(f.name(), "a.txt");
    assert_eq!(d.name(), "x");
    assert!(!f.is_dir());
    assert!(d.is_dir());
}

#[test]
fn directories_first_then_by_code_point() {
    let mut root = dir(
        ".",
        "",
        vec![
            file("b", "b"),
            file("B", "B"),
            dir("z", "z", vec![]),
            file("a", "a"),
            dir("Y", "Y", vec![]),
            file("é", "é"),
        ],
    );
    root.sort_children();
    let names: Vec<&str> = match &root {
        FileNode::Directory { children, .. } => children.iter().map(|c| c.name()).collect(),
        FileNode::File { .. } => vec![],
    };
    assert_eq!(names, vec!["Y", "z", "B", "a", "b", "é"]);
}

#[test]
fn sorting_is_stable_for_equal_names() {
    let mut root = dir(
        ".",
        "",
        vec![file("x", "first"), file("a", "a"), file("x", "second")],
    );
    root.sort_children();
    match &root {
        FileNode::Directory { children, .. } => {
            let paths: Vec<&str> = children
                .iter()
                .map(|c| match c {
                    FileNode::File { rel_path, .. } => rel_path.as_str(),
                    FileNode::Directory { rel_path, .. } => rel_path.as_str(),
                })
                .collect();
            assert_eq!(paths, vec!["a", "first", "second"]);
        }
        FileNode::File { .. } => panic!("root is a directory"),
    }
}

#[test]
fn sorting_twice_changes_nothing() {
    let make = || {
        dir(
            ".",
            "",
            vec![
                file("z.rs", "z.rs"),
                dir("m", "m", vec![file("q", "m/q"), file("p", "m/p")]),
                file("c.rs", "c.rs"),
            ],
        )
    };
    let mut once = make();
    once.sort_children();
    let mut twice = make();
    twice.sort_children();
    twice.sort_children();
    assert_eq!(once, twice);
    assert_eq!(once.render_tree(), twice.render_tree());
}

#[test]
fn render_nested_last_directory() {
    let mut root = dir(
        ".",
        "",
        vec![
            file("top.txt", "top.txt"),
            dir(
                "a",
                "a",
                vec![dir("b", "a/b", vec![file("deep.rs", "a/b/deep.rs")]), file("x", "a/x")],
            ),
        ],
    );
    root.sort_children();
    let expected = "\
├── a/
│   ├── b/
│   │   └── deep.rs
│   └── x
└── top.txt
";
    assert_eq!(root.render_tree(), expected);
    let last = dir("d", "d", vec![dir("e", "d/e", vec![]), file("f", "d/f")]);
    let outer = dir(".", "", vec![last]);
    assert_eq!(outer.render_tree(), "└── d/\n    ├── e/\n    └── f\n");
}

#[test]
fn render_of_a_file_and_of_an_empty_directory() {
    assert_eq!(file("only.rs", "only.rs").render_tree(), "only.rs\n");
    assert_eq!(dir(".", "", vec![]).render_tree(), "");
}

#[test]
fn one_line_per_entry() {
    let root = dir(
        ".",
        "",
        vec![
            dir("a", "a", vec![file("1", "a/1"), dir("b", "a/b", vec![file("2", "a/b/2")])]),
            file("3", "3"),
        ],
    );
    // a, 1, b, 2, 3
    assert_eq!(root.render_tree().lines().count(), 5);
}

#[test]
fn render_node_appends_after_what_is_there() {
    let node = dir("src", "src", vec![file("a.rs", "src/a.rs"), file("b.rs", "src/b.rs")]);
    let mut out = "before\n".to_string();
    node.render_node("│   ", true, &mut out);
    let mut alone = String::new();
    node.render_node("│   ", true, &mut alone);
    assert_eq!(
        alone,
        "│   └── src/\n│       ├── a.rs\n│       └── b.rs\n"
    );
    assert_eq!(out, format!("before\n{}", alone));
    assert_eq!(alone.lines().count(), 3);
    assert!(alone.lines().all(|l| l.starts_with("│   ")));
}
