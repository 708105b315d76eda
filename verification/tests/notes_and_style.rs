use colored::Colorize;
use lsnote::config::{get_config, ColorName};
use lsnote::display::{colorize_name, format_git_status, format_permissions, paint, triplet, FileMeta};
use lsnote::git::GitStatus;
use lsnote::notes::{get_note, parse_notes, remove_note, render_notes, set_note, Notes};
use lsnote::text::strip_ansi_text;

#[test]
fn notes_parse_and_get() {
    let n = parse_notes("/a/b: first note\n/c: second: with colon\nmalformed line\n");
    assert_eq!(get_note(&n, "/a/b"), Some(String::from("first note")));
    assert_eq!(get_note(&n, "/c"), Some(String::from("second: with colon")));
    assert_eq!(get_note(&n, "/missing"), None);
    assert_eq!(get_note(&n, "malformed line"), None);
}

#[test]
fn notes_set_overwrites() {
    let mut n = Notes::new();
    set_note(&mut n, "/a", "one");
    set_note(&mut n, "/b", "two");
    set_note(&mut n, "/a", "three");
    assert_eq!(get_note(&n, "/a"), Some(String::from("three")));
    assert_eq!(get_note(&n, "/b"), Some(String::from("two")));
}

#[test]
fn notes_remove() {
    let mut n = Notes::new();
    set_note(&mut n, "/a", "one");
    assert!(remove_note(&mut n, "/a"));
    assert_eq!(get_note(&n, "/a"), None);
    // removing an absent note fails and changes nothing
    assert!(!remove_note(&mut n, "/a"));
    assert!(!remove_note(&mut n, "/never"));
}

#[test]
fn notes_render_sorted() {
    let mut n = Notes::new();
    set_note(&mut n, "/z", "last");
    set_note(&mut n, "/a", "first");
    set_note(&mut n, "/m", "middle");
    assert_eq!(render_notes(&n), "/a: first\n/m: middle\n/z: last\n");
}

#[test]
fn notes_round_trip() {
    let mut n = Notes::new();
    set_note(&mut n, "/path/one", "alpha");
    set_note(&mut n, "/path/two", "beta: still beta");
    let text = render_notes(&n);
    let back = parse_notes(&text);
    assert_eq!(get_note(&back, "/path/one"), Some(String::from("alpha")));
    assert_eq!(get_note(&back, "/path/two"), Some(String::from("beta: still beta")));
}

#[test]
fn paint_matches_the_colored_crate() {
    colored::control::set_override(true);
    assert_eq!(paint("name", &ColorName::Blue, true), "name".blue().bold().to_string());
    assert_eq!(paint("name", &ColorName::Red, false), "name".red().to_string());
    assert_eq!(paint("# n", &ColorName::BrightBlack, false), "# n".bright_black().to_string());
    colored::control::unset_override();
}

#[test]
fn strip_ansi_removes_styling() {
    let styled = paint("hello", &ColorName::Green, true);
    assert_ne!(styled, "hello");
    assert_eq!(strip_ansi_text(&styled), "hello");
    assert_eq!(strip_ansi_text("plain"), "plain");
    assert_eq!(strip_ansi_text(""), "");
}

#[test]
fn git_status_glyphs_plain() {
    let c = get_config();
    let f = |s: Option<&GitStatus>| format_git_status(s, &c.git, &c.colors, false);
    assert_eq!(f(Some(&GitStatus::Modified)), "●");
    assert_eq!(f(Some(&GitStatus::Staged)), "◐");
    assert_eq!(f(Some(&GitStatus::Untracked)), "?");
    assert_eq!(f(Some(&GitStatus::Ignored)), "◌");
    assert_eq!(f(Some(&GitStatus::Clean)), " ");
    assert_eq!(f(None), " ");
}

#[test]
fn git_status_glyphs_styled_strip_to_plain() {
    let c = get_config();
    for st in [
        GitStatus::Modified,
        GitStatus::Staged,
        GitStatus::Untracked,
        GitStatus::Ignored,
        GitStatus::Clean,
    ] {
        let styled = format_git_status(Some(&st), &c.git, &c.colors, true);
        let plain = format_git_status(Some(&st), &c.git, &c.colors, false);
        assert_eq!(strip_ansi_text(&styled), plain);
    }
}

#[test]
fn colorize_name_uses_status_color() {
    colored::control::set_override(true);
    let c = get_config();
    let meta = FileMeta {
        is_dir: false,
        is_symlink: false,
        is_block_device: false,
        is_char_device: false,
        mode: 0o644,
        nlink: 1,
        size: 0,
        blocks: 0,
    };
    let out = colorize_name("f.txt", &meta, Some(&GitStatus::Modified), &c.colors);
    assert_eq!(out, "f.txt".red().to_string());
    let dir_meta = FileMeta { is_dir: true, mode: 0o755, ..meta };
    let out_dir = colorize_name("d", &dir_meta, None, &c.colors);
    assert_eq!(out_dir, "d".blue().bold().to_string());
    colored::control::unset_override();
}

#[test]
fn permission_strings() {
    assert_eq!(triplet(0o7), "rwx");
    assert_eq!(triplet(0o5), "r-x");
    assert_eq!(triplet(0o0), "---");
    let meta = FileMeta {
        is_dir: true,
        is_symlink: false,
        is_block_device: false,
        is_char_device: false,
        mode: 0o755,
        nlink: 1,
        size: 0,
        blocks: 0,
    };
    assert_eq!(format_permissions(&meta), "drwxr-xr-x");
    let block = FileMeta { is_dir: false, is_block_device: true, mode: 0o660, ..meta };
    assert_eq!(format_permissions(&block), "brw-rw----");
}
