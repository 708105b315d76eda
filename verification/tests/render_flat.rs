use lsnote::config::get_config;
use lsnote::display::{build_entry, build_list, DisplayOptions, Entry, FileMeta, ListTarget};
use lsnote::git::resolve_statuses;
use lsnote::text::strip_ansi_text;

fn meta_file(mode: u32, size: u64, blocks: u64) -> FileMeta {
    FileMeta {
        is_dir: false,
        is_symlink: false,
        is_block_device: false,
        is_char_device: false,
        mode,
        nlink: 1,
        size,
        blocks,
    }
}

fn entry(name: &str, meta: FileMeta, status_key: Option<&str>, note: Option<&str>) -> Entry {
    Entry {
        name: String::from(name),
        meta,
        note: note.map(String::from),
        status_key: status_key.map(String::from),
        owner: String::from("root"),
        group: String::from("root"),
        date: String::from("Oct  1 12:00"),
        size_human: String::from("1.2K"),
        link_target: None,
    }
}

fn opts_short() -> DisplayOptions {
    DisplayOptions {
        show_all: false,
        long_format: false,
        show_icons: false,
        human_readable: false,
        show_git: false,
        tree_view: false,
    }
}

fn opts_long() -> DisplayOptions {
    DisplayOptions { long_format: true, ..opts_short() }
}

#[test]
fn short_plain_name_only() {
    let cfg = get_config();
    let m = resolve_statuses("");
    let e = entry("a.txt", meta_file(0o644, 10, 2), None, None);
    let out = build_entry(&e, &m, &cfg, &opts_short(), false);
    assert_eq!(out, "a.txt\n");
}

#[test]
fn short_plain_with_note() {
    let cfg = get_config();
    let m = resolve_statuses("");
    let e = entry("a.txt", meta_file(0o644, 10, 2), None, Some("remember me"));
    let out = build_entry(&e, &m, &cfg, &opts_short(), false);
    assert_eq!(out, "a.txt  # remember me\n");
}

#[test]
fn short_plain_with_git_and_icon() {
    let cfg = get_config();
    let m = resolve_statuses("A  a.txt\n");
    let e = entry("a.txt", meta_file(0o644, 10, 2), Some("a.txt"), None);
    let opts = DisplayOptions { show_git: true, show_icons: true, ..opts_short() };
    let out = build_entry(&e, &m, &cfg, &opts, false);
    assert_eq!(out, "◐ 📄 a.txt\n");
}

#[test]
fn long_plain_columns() {
    let cfg = get_config();
    let m = resolve_statuses("");
    let e = entry("a.txt", meta_file(0o644, 1234, 2), None, None);
    let out = build_entry(&e, &m, &cfg, &opts_long(), false);
    assert_eq!(out, "-rw-r--r--  1 root     root         1234 Oct  1 12:00 a.txt\n");
}

#[test]
fn long_plain_human_readable_size() {
    let cfg = get_config();
    let m = resolve_statuses("");
    let e = entry("a.txt", meta_file(0o644, 1234, 2), None, None);
    let opts = DisplayOptions { human_readable: true, ..opts_long() };
    let out = build_entry(&e, &m, &cfg, &opts, false);
    assert_eq!(out, "-rw-r--r--  1 root     root       1.2K Oct  1 12:00 a.txt\n");
}

#[test]
fn long_plain_symlink_target() {
    let cfg = get_config();
    let m = resolve_statuses("");
    let mut e = entry("ln", meta_file(0o777, 3, 0), None, None);
    e.meta.is_symlink = true;
    e.link_target = Some(String::from("target.txt"));
    let out = build_entry(&e, &m, &cfg, &opts_long(), false);
    assert_eq!(out, "lrwxrwxrwx  1 root     root            3 Oct  1 12:00 ln -> target.txt\n");
}

#[test]
fn total_line_counts_listed_blocks() {
    // total = sum of 512-byte block counts over exactly the printed
    // entries, integer-divided into kilobyte units
    let cfg = get_config();
    let m = resolve_statuses("");
    let entries = vec![
        entry("a.txt", meta_file(0o644, 10, 3), None, None),
        entry("b.txt", meta_file(0o644, 10, 5), None, None),
    ];
    let out = build_list(&ListTarget::Dir(entries), &m, &cfg, &opts_long(), false);
    assert!(out.starts_with("total 4\n"), "got: {out}");
    let lines: Vec<&str> = out.lines().collect();
    assert_eq!(lines.len(), 3);
}

#[test]
fn total_line_skips_hidden_entries() {
    let cfg = get_config();
    let m = resolve_statuses("");
    let entries = vec![
        entry(".hidden", meta_file(0o644, 10, 8), None, None),
        entry("b.txt", meta_file(0o644, 10, 2), None, None),
    ];
    let out = build_list(&ListTarget::Dir(entries), &m, &cfg, &opts_long(), false);
    assert!(out.starts_with("total 1\n"), "got: {out}");
    let lines: Vec<&str> = out.lines().collect();
    assert_eq!(lines.len(), 2);
}

#[test]
fn dir_listing_is_sorted() {
    let cfg = get_config();
    let m = resolve_statuses("");
    let entries = vec![
        entry("b.txt", meta_file(0o644, 10, 2), None, None),
        entry("A.txt", meta_file(0o644, 10, 2), None, None),
    ];
    let out = build_list(&ListTarget::Dir(entries), &m, &cfg, &opts_short(), false);
    assert_eq!(out, "A.txt\nb.txt\n");
}

#[test]
fn file_target_uses_parent_status_map() {
    // a plain file argument renders as a single entry whose status comes
    // from its parent directory's status map
    let cfg = get_config();
    let m = resolve_statuses("A  a.txt\n");
    let e = entry("a.txt", meta_file(0o644, 10, 2), Some("a.txt"), None);
    let opts = DisplayOptions { show_git: true, ..opts_short() };
    let out = build_list(&ListTarget::FileEntry(e), &m, &cfg, &opts, false);
    assert_eq!(out, "◐ a.txt\n");
}

#[test]
fn unreadable_directory_message() {
    let cfg = get_config();
    let m = resolve_statuses("");
    let out = build_list(
        &ListTarget::Unreadable(String::from("/no/such/place")),
        &m,
        &cfg,
        &opts_short(),
        false,
    );
    assert_eq!(out, "Error reading directory: /no/such/place\n");
}

#[test]
fn styled_and_plain_differ_only_in_styling_bytes() {
    let cfg = get_config();
    let m = resolve_statuses("A  a.txt\n M b.txt\n");
    let entries = vec![
        entry("b.txt", meta_file(0o644, 10, 2), Some("b.txt"), Some("nb")),
        entry("a.txt", meta_file(0o755, 10, 2), Some("a.txt"), None),
        entry("c.txt", meta_file(0o644, 10, 2), Some("c.txt"), None),
    ];
    for long_format in [false, true] {
        let opts = DisplayOptions {
            long_format,
            show_git: true,
            show_icons: true,
            ..opts_short()
        };
        let target = ListTarget::Dir(entries.clone());
        let styled = build_list(&target, &m, &cfg, &opts, true);
        let plain = build_list(&target, &m, &cfg, &opts, false);
        assert_ne!(styled, plain);
        assert_eq!(strip_ansi_text(&styled), plain);
        assert_eq!(styled.lines().count(), plain.lines().count());
    }
}
