use lsnote::config::get_config;
use lsnote::display::{build_tree, DisplayOptions, Entry, FileMeta, TreeNode};
use lsnote::git::resolve_statuses;
use lsnote::text::strip_ansi_text;

fn meta(is_dir: bool) -> FileMeta {
    FileMeta {
        is_dir,
        is_symlink: false,
        is_block_device: false,
        is_char_device: false,
        mode: if is_dir { 0o755 } else { 0o644 },
        nlink: 1,
        size: 10,
        blocks: 2,
    }
}

fn leaf(name: &str, status_key: &str) -> TreeNode {
    TreeNode { entry: entry(name, false, status_key), children: Vec::new() }
}

fn entry(name: &str, is_dir: bool, status_key: &str) -> Entry {
    Entry {
        name: String::from(name),
        meta: meta(is_dir),
        note: None,
        status_key: Some(String::from(status_key)),
        owner: String::from("root"),
        group: String::from("root"),
        date: String::from("Oct  1 12:00"),
        size_human: String::from("10B"),
        link_target: None,
    }
}

fn opts() -> DisplayOptions {
    DisplayOptions {
        show_all: false,
        long_format: false,
        show_icons: false,
        human_readable: false,
        show_git: true,
        tree_view: true,
    }
}

fn sample_tree() -> TreeNode {
    // children deliberately out of order: the renderer sorts them
    let b = TreeNode {
        entry: entry("b", true, "b"),
        children: vec![leaf("c.txt", "b/c.txt")],
    };
    TreeNode { entry: entry(".", true, ""), children: vec![b, leaf("a.txt", "a.txt")] }
}

#[test]
fn tree_plain_end_to_end() {
    // a.txt staged and b/c.txt modified: b inherits Modified (priority 3
    // beats 2); connectors mark the last sibling exactly once per level
    let cfg = get_config();
    let m = resolve_statuses("A  a.txt\n M b/c.txt\n");
    let out = build_tree(&sample_tree(), &m, &cfg, &opts(), "", false);
    assert_eq!(out, ".\n├── ◐ a.txt\n└── ● b\n    └── ● c.txt\n");
}

#[test]
fn tree_without_git() {
    let cfg = get_config();
    let m = resolve_statuses("");
    let o = DisplayOptions { show_git: false, ..opts() };
    let out = build_tree(&sample_tree(), &m, &cfg, &o, "", false);
    assert_eq!(out, ".\n├── a.txt\n└── b\n    └── c.txt\n");
}

#[test]
fn tree_with_icons() {
    let cfg = get_config();
    let m = resolve_statuses("");
    let o = DisplayOptions { show_git: false, show_icons: true, ..opts() };
    let out = build_tree(&sample_tree(), &m, &cfg, &o, "", false);
    assert_eq!(out, "📁 .\n├── 📄 a.txt\n└── 📁 b\n    └── 📄 c.txt\n");
}

#[test]
fn tree_nonlast_directory_uses_vertical_continuation() {
    let cfg = get_config();
    let m = resolve_statuses("");
    let b = TreeNode {
        entry: entry("b", true, "b"),
        children: vec![leaf("c.txt", "b/c.txt")],
    };
    let root = TreeNode {
        entry: entry(".", true, ""),
        children: vec![b, leaf("z.txt", "z.txt")],
    };
    let o = DisplayOptions { show_git: false, ..opts() };
    let out = build_tree(&root, &m, &cfg, &o, "", false);
    assert_eq!(out, ".\n├── b\n│   └── c.txt\n└── z.txt\n");
}

#[test]
fn tree_hides_dot_entries() {
    let cfg = get_config();
    let m = resolve_statuses("");
    let root = TreeNode {
        entry: entry(".", true, ""),
        children: vec![leaf(".hidden", ".hidden"), leaf("a.txt", "a.txt")],
    };
    let o = DisplayOptions { show_git: false, ..opts() };
    let out = build_tree(&root, &m, &cfg, &o, "", false);
    assert_eq!(out, ".\n└── a.txt\n");
    let all = DisplayOptions { show_all: true, ..o };
    let out_all = build_tree(&root, &m, &cfg, &all, "", false);
    assert_eq!(out_all, ".\n├── .hidden\n└── a.txt\n");
}

#[test]
fn tree_nonempty_prefix_suppresses_header() {
    let cfg = get_config();
    let m = resolve_statuses("");
    let o = DisplayOptions { show_git: false, ..opts() };
    let out = build_tree(&sample_tree(), &m, &cfg, &o, "  ", false);
    assert_eq!(out, "  ├── a.txt\n  └── b\n      └── c.txt\n");
}

#[test]
fn tree_styled_and_plain_differ_only_in_styling_bytes() {
    let cfg = get_config();
    let m = resolve_statuses("A  a.txt\n M b/c.txt\n?? z\n");
    let tree = {
        let mut t = sample_tree();
        t.children.push(leaf("z", "z"));
        t
    };
    let o = DisplayOptions { show_icons: true, ..opts() };
    let styled = build_tree(&tree, &m, &cfg, &o, "", true);
    let plain = build_tree(&tree, &m, &cfg, &o, "", false);
    assert_ne!(styled, plain);
    assert_eq!(strip_ansi_text(&styled), plain);
    assert_eq!(styled.lines().count(), plain.lines().count());
}

#[test]
fn tree_exactly_one_closing_connector_per_level() {
    let cfg = get_config();
    let m = resolve_statuses("");
    let root = TreeNode {
        entry: entry(".", true, ""),
        children: vec![leaf("a", "a"), leaf("b", "b"), leaf("c", "c")],
    };
    let o = DisplayOptions { show_git: false, ..opts() };
    let out = build_tree(&root, &m, &cfg, &o, "", false);
    let closing = out.matches("└── ").count();
    let tee = out.matches("├── ").count();
    assert_eq!(closing, 1);
    assert_eq!(tee, 2);
    assert!(out.ends_with("└── c\n"));
}
