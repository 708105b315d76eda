use lsnote::config::{get_config, parse_color, ColorName, Config};
use lsnote::display::FileMeta;
use lsnote::icons::{get_icon, is_executable};

fn meta(is_dir: bool, is_symlink: bool, mode: u32) -> FileMeta {
    FileMeta {
        is_dir,
        is_symlink,
        is_block_device: false,
        is_char_device: false,
        mode,
        nlink: 1,
        size: 0,
        blocks: 0,
    }
}

#[test]
fn parse_color_names() {
    assert_eq!(parse_color("red"), ColorName::Red);
    assert_eq!(parse_color("blue"), ColorName::Blue);
    assert_eq!(parse_color("purple"), ColorName::Magenta);
    assert_eq!(parse_color("magenta"), ColorName::Magenta);
    assert_eq!(parse_color("bright_black"), ColorName::BrightBlack);
    assert_eq!(parse_color("brightcyan"), ColorName::BrightCyan);
}

#[test]
fn parse_color_is_case_insensitive() {
    assert_eq!(parse_color("RED"), ColorName::Red);
    assert_eq!(parse_color("Bright_Yellow"), ColorName::BrightYellow);
}

#[test]
fn parse_color_unknown_falls_back_to_white() {
    assert_eq!(parse_color("chartreuse"), ColorName::White);
    assert_eq!(parse_color(""), ColorName::White);
}

#[test]
fn default_config_values() {
    let c = get_config();
    assert_eq!(c.colors.directory, "blue");
    assert_eq!(c.colors.git_modified, "red");
    assert_eq!(c.git.modified, "●");
    assert_eq!(c.git.staged, "◐");
    assert_eq!(c.git.untracked, "?");
    assert_eq!(c.git.ignored, "◌");
    assert_eq!(c.icons.directory, "📁");
}

#[test]
fn load_overrides_and_skips_comments() {
    let text = "# comment\n\n color.directory = green \ngit.modified = !\nnonsense\nfoo = bar\n";
    let c = Config::load(text);
    assert_eq!(c.colors.directory, "green");
    assert_eq!(c.git.modified, "!");
    // untouched keys keep their defaults
    assert_eq!(c.colors.symlink, "cyan");
}

#[test]
fn load_custom_icon_keys() {
    let text = "icon.ext.zz = Z\nicon.name.Dockerfile.Dev = D\n";
    let c = Config::load(text);
    let by_ext = get_icon("thing.zz", &meta(false, false, 0o644), &c.icons);
    assert_eq!(by_ext, "Z");
    // filename keys are stored lowercased and matched case-insensitively
    let by_name = get_icon("dockerfile.dev", &meta(false, false, 0o644), &c.icons);
    assert_eq!(by_name, "D");
}

#[test]
fn generate_default_reloads_to_defaults() {
    let text = Config::generate_default();
    assert!(text.starts_with("# lsn configuration file\n"));
    let c = Config::load(&text);
    let d = get_config();
    assert_eq!(c.colors.directory, d.colors.directory);
    assert_eq!(c.git.ignored, d.git.ignored);
    assert_eq!(c.icons.file, d.icons.file);
}

#[test]
fn icon_precedence() {
    let ic = get_config().icons;
    // directory beats everything
    assert_eq!(get_icon("cargo.toml", &meta(true, false, 0o755), &ic), "📁");
    // symlink next
    assert_eq!(get_icon("cargo.toml", &meta(false, true, 0o644), &ic), "🔗");
    // exact filename beats extension
    assert_eq!(get_icon("Cargo.toml", &meta(false, false, 0o644), &ic), "🦀");
    // extension match, case-folded
    assert_eq!(get_icon("photo.JPG", &meta(false, false, 0o644), &ic), "🖼️");
    assert_eq!(get_icon("main.rs", &meta(false, false, 0o644), &ic), "🦀");
    // executable bit
    assert_eq!(get_icon("tool", &meta(false, false, 0o755), &ic), "📄");
    // plain file
    assert_eq!(get_icon("notes", &meta(false, false, 0o644), &ic), "📄");
}

#[test]
fn icon_hidden_name_has_no_extension() {
    let ic = get_config().icons;
    // ".gitignore" matches its special filename, not an extension
    assert_eq!(get_icon(".gitignore", &meta(false, false, 0o644), &ic), "🙈");
    // a leading-dot name with no other dot carries no extension
    assert_eq!(get_icon(".rs", &meta(false, false, 0o644), &ic), "📄");
}

#[test]
fn executable_bits() {
    assert!(is_executable(&meta(false, false, 0o755)));
    assert!(is_executable(&meta(false, false, 0o100)));
    assert!(!is_executable(&meta(false, false, 0o644)));
}
