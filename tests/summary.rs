use mdsummary::node::Node;
use mdsummary::order::{sort_by_title, title_less_eq};
use mdsummary::render::{hierarchy_to_md, render_summary};
use mdsummary::scan::{build_hierarchy, is_document, title_or_name, Listing};
use mdsummary::title::{clean_line, extract_title};

fn file(name: &str, text: &str) -> Listing {
    Listing::File(name.to_string(), Some(text.to_string()))
}

fn dir(name: &str, landing: Option<&str>, entries: Vec<Listing>) -> Listing {
    Listing::Dir(name.to_string(), landing.map(|t| t.to_string()), entries)
}

fn titles(n: &Node) -> Vec<String> {
    match n {
        Node::Folder(_, _, children) => children.iter().map(|c| c.title().to_string()).collect(),
        Node::File(_, _) => vec![],
    }
}

#[test]
fn end_to_end_example() {
    let files = dir(
        "files",
        Some("# Files section\n"),
        vec![
            file("file2.md", "# Title 2\n"),
            file("landing.md", "# Files section\n"),
            file("file1.md", "# Title 1\n"),
        ],
    );
    let root = dir(
        "example",
        Some("# Landing page\n"),
        vec![file("landing.md", "# Landing page\n"), files],
    );
    let tree = build_hierarchy(root).unwrap();
    let expected = "# SUMMARY\n\n- [Files section](./files/landing.md)\n    - [Title 1](./files/file1.md)\n    - [Title 2](./files/file2.md)";
    assert_eq!(render_summary(&tree), expected);
}

#[test]
fn empty_text_has_no_title() {
    assert_eq!(extract_title(""), None);
}

#[test]
fn text_of_blank_lines_has_no_title() {
    assert_eq!(extract_title("\n   \n___\n## ***\n\t\n"), None);
}

#[test]
fn first_substantive_line_gives_title() {
    assert_eq!(extract_title("\n\n## Getting_started  \nmore"), Some("Getting started".to_string()));
    assert_eq!(extract_title("last line without newline"), Some("last line without newline".to_string()));
}

#[test]
fn title_keeps_only_whitelisted_characters() {
    let t = extract_title("# Héllo_wörld *bold* (v1.2) +x -y, ok? yes!\n").unwrap();
    assert_eq!(t, "Hllo wrld bold v1.2 +x -y, ok? yes!");
    let allowed = "abcdefghijklmnopqrstuvwxyzABCDEFGHIJKLMNOPQRSTUVWXYZ0123456789 .,!?-+";
    assert!(t.chars().all(|c| allowed.contains(c)));
}

#[test]
fn clean_line_trims_and_filters() {
    assert_eq!(clean_line("  # __Intro__ \r\n"), "Intro");
    assert_eq!(clean_line("#"), "");
    assert_eq!(clean_line("a_b"), "a b");
}

#[test]
fn folder_without_landing_is_titled_by_name() {
    let tree = build_hierarchy(dir("root", None, vec![dir("guides", None, vec![])])).unwrap();
    assert_eq!(tree.title(), "root");
    assert_eq!(titles(&tree), vec!["guides".to_string()]);
    assert_eq!(render_summary(&tree), "# SUMMARY\n\n- [guides](./guides/landing.md)");
}

#[test]
fn folder_with_untitled_landing_is_titled_by_name() {
    let tree = build_hierarchy(dir("docs", Some("\n***\n"), vec![])).unwrap();
    assert_eq!(tree.title(), "docs");
}

#[test]
fn children_sorted_by_title_bytewise() {
    let tree = build_hierarchy(dir(
        "r",
        None,
        vec![
            file("a.md", "# zeta"),
            file("b.md", "# Beta"),
            file("c.md", "# alpha"),
            dir("d", Some("# Delta"), vec![]),
        ],
    ))
    .unwrap();
    assert_eq!(titles(&tree), vec!["Beta", "Delta", "alpha", "zeta"]);
}

#[test]
fn equal_titles_keep_discovery_order() {
    let tree = build_hierarchy(dir(
        "r",
        None,
        vec![file("x.md", "# Same"), file("a.md", "# Other"), file("b.md", "# Same")],
    ))
    .unwrap();
    match &tree {
        Node::Folder(_, _, children) => {
            let names: Vec<&str> = children.iter().map(|c| c.name()).collect();
            assert_eq!(names, vec!["a.md", "x.md", "b.md"]);
        }
        Node::File(_, _) => panic!("expected a folder"),
    }
}

#[test]
fn non_document_files_are_left_out() {
    let tree = build_hierarchy(dir(
        "r",
        None,
        vec![dir("assets", None, vec![file("logo.png", "binary")])],
    ))
    .unwrap();
    assert_eq!(render_summary(&tree), "# SUMMARY\n\n- [assets](./assets/landing.md)");
    assert!(build_hierarchy(file("notes.txt", "# Notes")).is_none());
}

#[test]
fn unreadable_or_untitled_file_falls_back_to_name() {
    let n = build_hierarchy(Listing::File("draft.md".to_string(), None)).unwrap();
    assert_eq!(n.title(), "draft.md");
    let n = build_hierarchy(file("empty.md", "")).unwrap();
    assert_eq!(n.title(), "empty.md");
    assert_eq!(title_or_name(&Some("# Real".to_string()), "x.md"), "Real");
}

#[test]
fn root_level_documents_listed_reserved_names_not() {
    let tree = build_hierarchy(dir(
        "r",
        None,
        vec![
            file("top.md", "# Top"),
            dir(
                "sub",
                Some("# Sub"),
                vec![file("SUMMARY.md", "# Summary"), file("landing.md", "# Sub"), file("page.md", "# Page")],
            ),
        ],
    ))
    .unwrap();
    assert_eq!(
        render_summary(&tree),
        "# SUMMARY\n\n- [Sub](./sub/landing.md)\n    - [Page](./sub/page.md)\n- [Top](./top.md)"
    );
}

#[test]
fn nested_folders_indent_four_spaces_per_level() {
    let inner = dir("c", Some("# C"), vec![file("deep.md", "# Deep")]);
    let mid = dir("b", Some("# B"), vec![inner]);
    let tree = build_hierarchy(dir("a", None, vec![mid])).unwrap();
    assert_eq!(
        render_summary(&tree),
        "# SUMMARY\n\n- [B](./b/landing.md)\n    - [C](./b/c/landing.md)\n        - [Deep](./b/c/deep.md)"
    );
}

#[test]
fn hierarchy_to_md_appends_below_path() {
    let node = Node::Folder(
        "x".to_string(),
        "X".to_string(),
        vec![Node::File("f.md".to_string(), "F".to_string()), Node::File("g.txt".to_string(), "G".to_string())],
    );
    let mut out = vec!["first".to_string()];
    hierarchy_to_md(&node, "./a", 2, &mut out);
    assert_eq!(out, vec!["first", "    - [X](./a/x/landing.md)", "        - [F](./a/x/f.md)"]);
    let mut top = Vec::new();
    hierarchy_to_md(&Node::File("f.md".to_string(), "F".to_string()), ".", 0, &mut top);
    assert!(top.is_empty());
}

#[test]
fn sort_is_stable_by_title() {
    let nodes = vec![
        Node::File("1".to_string(), "b".to_string()),
        Node::File("2".to_string(), "a".to_string()),
        Node::File("3".to_string(), "b".to_string()),
        Node::File("4".to_string(), "a".to_string()),
    ];
    let sorted = sort_by_title(nodes);
    let names: Vec<&str> = sorted.iter().map(|n| n.name()).collect();
    assert_eq!(names, vec!["2", "4", "1", "3"]);
}

#[test]
fn title_order_is_bytewise() {
    assert!(title_less_eq("B", "a"));
    assert!(!title_less_eq("a", "B"));
    assert!(title_less_eq("ab", "abc"));
    assert!(!title_less_eq("abc", "ab"));
    assert!(title_less_eq("same", "same"));
    assert!(title_less_eq("z", "é"));
}

#[test]
fn document_extension() {
    assert!(is_document("a.md"));
    assert!(is_document(".md"));
    assert!(!is_document("a.mdx"));
    assert!(!is_document("md"));
}
