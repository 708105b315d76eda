//! Configuration: icon, color and git-glyph tables with built-in defaults,
//! overridden by `key = value` lines of a configuration text.

use crate::text::{
    chars_from, chars_of, chars_take, find_ch, has_prefix, lemma_find_ch, lines_of, lower_of,
    split_lines, string_of, to_lowercase, trim_chars, trim_spec,
};
use vstd::prelude::*;
use vstd::string::*;

verus! {

/// A terminal color that a configured color name selects.
#[derive(Debug, Clone, Copy, PartialEq, Eq, Structural)]
pub enum ColorName {
    Black,
    Red,
    Green,
    Yellow,
    Blue,
    Magenta,
    Cyan,
    White,
    BrightBlack,
    BrightRed,
    BrightGreen,
    BrightYellow,
    BrightBlue,
    BrightMagenta,
    BrightCyan,
    BrightWhite,
}

/// The ANSI foreground code of a color, as two digit characters.
pub open spec fn color_code(c: ColorName) -> Seq<char> {
    match c {
        ColorName::Black => seq!['3', '0'],
        ColorName::Red => seq!['3', '1'],
        ColorName::Green => seq!['3', '2'],
        ColorName::Yellow => seq!['3', '3'],
        ColorName::Blue => seq!['3', '4'],
        ColorName::Magenta => seq!['3', '5'],
        ColorName::Cyan => seq!['3', '6'],
        ColorName::White => seq!['3', '7'],
        ColorName::BrightBlack => seq!['9', '0'],
        ColorName::BrightRed => seq!['9', '1'],
        ColorName::BrightGreen => seq!['9', '2'],
        ColorName::BrightYellow => seq!['9', '3'],
        ColorName::BrightBlue => seq!['9', '4'],
        ColorName::BrightMagenta => seq!['9', '5'],
        ColorName::BrightCyan => seq!['9', '6'],
        ColorName::BrightWhite => seq!['9', '7'],
    }
}

/// The two characters of a color's ANSI foreground code.
pub fn color_code_chars(c: &ColorName) -> (r: Vec<char>)
    ensures
        r@ == color_code(*c),
{
    let (a, b): (char, char) = match c {
        ColorName::Black => ('3', '0'),
        ColorName::Red => ('3', '1'),
        ColorName::Green => ('3', '2'),
        ColorName::Yellow => ('3', '3'),
        ColorName::Blue => ('3', '4'),
        ColorName::Magenta => ('3', '5'),
        ColorName::Cyan => ('3', '6'),
        ColorName::White => ('3', '7'),
        ColorName::BrightBlack => ('9', '0'),
        ColorName::BrightRed => ('9', '1'),
        ColorName::BrightGreen => ('9', '2'),
        ColorName::BrightYellow => ('9', '3'),
        ColorName::BrightBlue => ('9', '4'),
        ColorName::BrightMagenta => ('9', '5'),
        ColorName::BrightCyan => ('9', '6'),
        ColorName::BrightWhite => ('9', '7'),
    };
    let mut r: Vec<char> = Vec::new();
    r.push(a);
    r.push(b);
    proof {
        assert(r@ =~= color_code(*c));
    }
    r
}

/// The color a lowercased color name selects; unknown names fall back to
/// white rather than failing.
pub open spec fn spec_parse_color(lower: Seq<char>) -> ColorName {
    if lower == "black"@ {
        ColorName::Black
    } else if lower == "red"@ {
        ColorName::Red
    } else if lower == "green"@ {
        ColorName::Green
    } else if lower == "yellow"@ {
        ColorName::Yellow
    } else if lower == "blue"@ {
        ColorName::Blue
    } else if lower == "magenta"@ || lower == "purple"@ {
        ColorName::Magenta
    } else if lower == "cyan"@ {
        ColorName::Cyan
    } else if lower == "white"@ {
        ColorName::White
    } else if lower == "bright_black"@ || lower == "brightblack"@ {
        ColorName::BrightBlack
    } else if lower == "bright_red"@ || lower == "brightred"@ {
        ColorName::BrightRed
    } else if lower == "bright_green"@ || lower == "brightgreen"@ {
        ColorName::BrightGreen
    } else if lower == "bright_yellow"@ || lower == "brightyellow"@ {
        ColorName::BrightYellow
    } else if lower == "bright_blue"@ || lower == "brightblue"@ {
        ColorName::BrightBlue
    } else if lower == "bright_magenta"@ || lower == "brightmagenta"@ {
        ColorName::BrightMagenta
    } else if lower == "bright_cyan"@ || lower == "brightcyan"@ {
        ColorName::BrightCyan
    } else if lower == "bright_white"@ || lower == "brightwhite"@ {
        ColorName::BrightWhite
    } else {
        ColorName::White
    }
}

/// Parse a color name string into a color, case-insensitively.
pub fn parse_color(name: &str) -> (c: ColorName)
    ensures
        c == spec_parse_color(lower_of(name@)),
{
    let l = to_lowercase(name);
    if l.eq(&String::from_str("black")) {
        ColorName::Black
    } else if l.eq(&String::from_str("red")) {
        ColorName::Red
    } else if l.eq(&String::from_str("green")) {
        ColorName::Green
    } else if l.eq(&String::from_str("yellow")) {
        ColorName::Yellow
    } else if l.eq(&String::from_str("blue")) {
        ColorName::Blue
    } else if l.eq(&String::from_str("magenta")) || l.eq(&String::from_str("purple")) {
        ColorName::Magenta
    } else if l.eq(&String::from_str("cyan")) {
        ColorName::Cyan
    } else if l.eq(&String::from_str("white")) {
        ColorName::White
    } else if l.eq(&String::from_str("bright_black")) || l.eq(&String::from_str("brightblack")) {
        ColorName::BrightBlack
    } else if l.eq(&String::from_str("bright_red")) || l.eq(&String::from_str("brightred")) {
        ColorName::BrightRed
    } else if l.eq(&String::from_str("bright_green")) || l.eq(&String::from_str("brightgreen")) {
        ColorName::BrightGreen
    } else if l.eq(&String::from_str("bright_yellow")) || l.eq(
        &String::from_str("brightyellow"),
    ) {
        ColorName::BrightYellow
    } else if l.eq(&String::from_str("bright_blue")) || l.eq(&String::from_str("brightblue")) {
        ColorName::BrightBlue
    } else if l.eq(&String::from_str("bright_magenta")) || l.eq(
        &String::from_str("brightmagenta"),
    ) {
        ColorName::BrightMagenta
    } else if l.eq(&String::from_str("bright_cyan")) || l.eq(&String::from_str("brightcyan")) {
        ColorName::BrightCyan
    } else if l.eq(&String::from_str("bright_white")) || l.eq(&String::from_str("brightwhite")) {
        ColorName::BrightWhite
    } else {
        ColorName::White
    }
}

/// The pairs of a string association list, as character sequences.
pub open spec fn str_pairs_view(s: Seq<(String, String)>) -> Seq<(Seq<char>, Seq<char>)> {
    s.map_values(|p: (String, String)| (p.0@, p.1@))
}

/// First binding of a key in an association list, if any.
pub open spec fn str_assoc(s: Seq<(Seq<char>, Seq<char>)>, k: Seq<char>) -> Option<Seq<char>>
    decreases s.len(),
{
    if s.len() == 0 {
        None
    } else if s[0].0 == k {
        Some(s[0].1)
    } else {
        str_assoc(s.drop_first(), k)
    }
}

/// Look a key up in a string association list.
pub fn assoc_get<'a>(v: &'a Vec<(String, String)>, k: &String) -> (r: Option<&'a String>)
    ensures
        match r {
            Some(s) => str_assoc(str_pairs_view(v@), k@) == Some(s@),
            None => str_assoc(str_pairs_view(v@), k@) is None,
        },
{
    let mut i: usize = 0;
    proof {
        assert(str_pairs_view(v@).skip(0) =~= str_pairs_view(v@));
    }
    while i < v.len()
        invariant
            i <= v@.len(),
            str_assoc(str_pairs_view(v@), k@) == str_assoc(
                str_pairs_view(v@).skip(i as int),
                k@,
            ),
        decreases v@.len() - i,
    {
        proof {
            assert(str_pairs_view(v@).skip(i as int)[0] == (v@[i as int].0@, v@[i as int].1@));
            assert(str_pairs_view(v@).skip(i as int).drop_first() =~= str_pairs_view(v@).skip(
                i + 1,
            ));
        }
        if v[i].0.eq(k) {
            return Some(&v[i].1);
        }
        i = i + 1;
    }
    proof {
        assert(str_pairs_view(v@).skip(i as int).len() == 0);
    }
    None
}

/// Replace the first binding of a key, or append a new one.
pub fn assoc_set(v: &mut Vec<(String, String)>, k: String, value: String)
    ensures
        str_pairs_view(final(v)@) == spec_assoc_set(str_pairs_view(old(v)@), k@, value@),
{
    let mut i: usize = 0;
    while i < v.len()
        invariant
            i <= v@.len(),
            v@ == old(v)@,
            forall|j: int| 0 <= j < i ==> str_pairs_view(v@)[j].0 != k@,
        decreases v@.len() - i,
    {
        proof {
            assert(str_pairs_view(v@)[i as int] == (v@[i as int].0@, v@[i as int].1@));
        }
        if v[i].0.eq(&k) {
            v.set(i, (k, value));
            proof {
                lemma_assoc_set(str_pairs_view(old(v)@), k@, value@, i as int);
                assert(str_pairs_view(v@) =~= str_pairs_view(old(v)@).update(
                    i as int,
                    (k@, value@),
                ));
            }
            return ;
        }
        i = i + 1;
    }
    v.push((k, value));
    proof {
        lemma_assoc_set_absent(str_pairs_view(old(v)@), k@, value@);
        assert(str_pairs_view(v@) =~= str_pairs_view(old(v)@).push((k@, value@)));
    }
}

/// The list after binding a key: the first matching pair replaced, or a new
/// pair appended.
pub open spec fn spec_assoc_set(
    s: Seq<(Seq<char>, Seq<char>)>,
    k: Seq<char>,
    value: Seq<char>,
) -> Seq<(Seq<char>, Seq<char>)>
    decreases s.len(),
{
    if s.len() == 0 {
        seq![(k, value)]
    } else if s[0].0 == k {
        s.update(0, (k, value))
    } else {
        seq![s[0]] + spec_assoc_set(s.drop_first(), k, value)
    }
}

/// Updating the first position carrying the key realizes `spec_assoc_set`.
proof fn lemma_assoc_set(s: Seq<(Seq<char>, Seq<char>)>, k: Seq<char>, value: Seq<char>, i: int)
    requires
        0 <= i < s.len(),
        s[i].0 == k,
        forall|j: int| 0 <= j < i ==> s[j].0 != k,
    ensures
        spec_assoc_set(s, k, value) == s.update(i, (k, value)),
    decreases i,
{
    if i == 0 {
        assert(spec_assoc_set(s, k, value) =~= s.update(0, (k, value)));
    } else {
        assert(forall|j: int| 0 <= j < i - 1 ==> s.drop_first()[j] == s[j + 1]);
        lemma_assoc_set(s.drop_first(), k, value, i - 1);
        assert(s.drop_first()[i - 1] == s[i]);
        assert(seq![s[0]] + s.drop_first().update(i - 1, (k, value)) =~= s.update(i, (k, value)));
    }
}

/// Appending realizes `spec_assoc_set` when no pair carries the key.
proof fn lemma_assoc_set_absent(s: Seq<(Seq<char>, Seq<char>)>, k: Seq<char>, value: Seq<char>)
    requires
        forall|j: int| 0 <= j < s.len() ==> s[j].0 != k,
    ensures
        spec_assoc_set(s, k, value) == s.push((k, value)),
    decreases s.len(),
{
    if s.len() == 0 {
        assert(spec_assoc_set(s, k, value) =~= s.push((k, value)));
    } else {
        assert(forall|j: int| 0 <= j < s.drop_first().len() ==> s.drop_first()[j] == s[j + 1]);
        lemma_assoc_set_absent(s.drop_first(), k, value);
        assert(seq![s[0]] + s.drop_first().push((k, value)) =~= s.push((k, value)));
    }
}

/// Main configuration structure.
#[derive(Debug, Clone)]
pub struct Config {
    pub icons: IconsConfig,
    pub colors: ColorsConfig,
    pub git: GitConfig,
}

/// Icon configuration for different file types.
#[derive(Debug, Clone)]
pub struct IconsConfig {
    pub directory: String,
    pub symlink: String,
    pub file: String,
    pub executable: String,
    pub extensions: Vec<(String, String)>,
    pub filenames: Vec<(String, String)>,
}

/// Color configuration for output.
#[derive(Debug, Clone)]
pub struct ColorsConfig {
    pub directory: String,
    pub symlink: String,
    pub executable: String,
    pub file: String,
    pub git_modified: String,
    pub git_staged: String,
    pub git_untracked: String,
}

/// Git status symbol configuration.
#[derive(Debug, Clone)]
pub struct GitConfig {
    pub modified: String,
    pub staged: String,
    pub untracked: String,
    pub ignored: String,
}

/// The character-level content of an icon configuration.
#[verifier::ext_equal]
pub struct IconsV {
    pub directory: Seq<char>,
    pub symlink: Seq<char>,
    pub file: Seq<char>,
    pub executable: Seq<char>,
    pub extensions: Seq<(Seq<char>, Seq<char>)>,
    pub filenames: Seq<(Seq<char>, Seq<char>)>,
}

/// The character-level content of a color configuration.
#[verifier::ext_equal]
pub struct ColorsV {
    pub directory: Seq<char>,
    pub symlink: Seq<char>,
    pub executable: Seq<char>,
    pub file: Seq<char>,
    pub git_modified: Seq<char>,
    pub git_staged: Seq<char>,
    pub git_untracked: Seq<char>,
}

/// The character-level content of a git glyph configuration.
#[verifier::ext_equal]
pub struct GitV {
    pub modified: Seq<char>,
    pub staged: Seq<char>,
    pub untracked: Seq<char>,
    pub ignored: Seq<char>,
}

/// The character-level content of a whole configuration.
#[verifier::ext_equal]
pub struct ConfigV {
    pub icons: IconsV,
    pub colors: ColorsV,
    pub git: GitV,
}

impl View for IconsConfig {
    type V = IconsV;

    open spec fn view(&self) -> IconsV {
        IconsV {
            directory: self.directory@,
            symlink: self.symlink@,
            file: self.file@,
            executable: self.executable@,
            extensions: str_pairs_view(self.extensions@),
            filenames: str_pairs_view(self.filenames@),
        }
    }
}

impl View for ColorsConfig {
    type V = ColorsV;

    open spec fn view(&self) -> ColorsV {
        ColorsV {
            directory: self.directory@,
            symlink: self.symlink@,
            executable: self.executable@,
            file: self.file@,
            git_modified: self.git_modified@,
            git_staged: self.git_staged@,
            git_untracked: self.git_untracked@,
        }
    }
}

impl View for GitConfig {
    type V = GitV;

    open spec fn view(&self) -> GitV {
        GitV {
            modified: self.modified@,
            staged: self.staged@,
            untracked: self.untracked@,
            ignored: self.ignored@,
        }
    }
}

impl View for Config {
    type V = ConfigV;

    open spec fn view(&self) -> ConfigV {
        ConfigV { icons: self.icons@, colors: self.colors@, git: self.git@ }
    }
}

/// The built-in extension icon table.
pub open spec fn default_extensions() -> Seq<(Seq<char>, Seq<char>)> {
    seq![
        ("rs"@, "🦀"@),
        ("toml"@, "⚙️"@),
        ("cfg"@, "⚙️"@),
        ("conf"@, "⚙️"@),
        ("ini"@, "⚙️"@),
        ("config"@, "⚙️"@),
        ("md"@, "📝"@),
        ("markdown"@, "📝"@),
        ("json"@, "📋"@),
        ("yaml"@, "📋"@),
        ("yml"@, "📋"@),
        ("js"@, "🟨"@),
        ("mjs"@, "🟨"@),
        ("cjs"@, "🟨"@),
        ("jsx"@, "🟨"@),
        ("ts"@, "🔷"@),
        ("tsx"@, "🔷"@),
        ("mts"@, "🔷"@),
        ("cts"@, "🔷"@),
        ("py"@, "🐍"@),
        ("pyi"@, "🐍"@),
        ("pyc"@, "🐍"@),
        ("go"@, "🐹"@),
        ("lock"@, "🔒"@),
        ("sh"@, "💻"@),
        ("bash"@, "💻"@),
        ("zsh"@, "💻"@),
        ("fish"@, "💻"@),
        ("png"@, "🖼️"@),
        ("jpg"@, "🖼️"@),
        ("jpeg"@, "🖼️"@),
        ("gif"@, "🖼️"@),
        ("svg"@, "🖼️"@),
        ("ico"@, "🖼️"@),
        ("webp"@, "🖼️"@),
        ("mp4"@, "🎬"@),
        ("mkv"@, "🎬"@),
        ("avi"@, "🎬"@),
        ("mov"@, "🎬"@),
        ("webm"@, "🎬"@),
        ("mp3"@, "🎵"@),
        ("wav"@, "🎵"@),
        ("flac"@, "🎵"@),
        ("ogg"@, "🎵"@),
        ("m4a"@, "🎵"@),
        ("zip"@, "📦"@),
        ("tar"@, "📦"@),
        ("gz"@, "📦"@),
        ("bz2"@, "📦"@),
        ("xz"@, "📦"@),
        ("7z"@, "📦"@),
        ("rar"@, "📦"@),
        ("html"@, "🌐"@),
        ("htm"@, "🌐"@),
        ("css"@, "🎨"@),
        ("scss"@, "🎨"@),
        ("sass"@, "🎨"@),
        ("less"@, "🎨"@),
        ("java"@, "☕"@),
        ("jar"@, "☕"@),
        ("class"@, "☕"@),
        ("c"@, "🔧"@),
        ("h"@, "🔧"@),
        ("cpp"@, "🔧"@),
        ("cc"@, "🔧"@),
        ("cxx"@, "🔧"@),
        ("hpp"@, "🔧"@),
        ("hxx"@, "🔧"@),
        ("sql"@, "🗄️"@),
        ("db"@, "🗄️"@),
        ("sqlite"@, "🗄️"@),
        ("sqlite3"@, "🗄️"@),
    ]
}

/// The built-in special filename icon table.
pub open spec fn default_filenames() -> Seq<(Seq<char>, Seq<char>)> {
    seq![
        ("cargo.toml"@, "🦀"@),
        ("cargo.lock"@, "🦀"@),
        ("makefile"@, "🔨"@),
        ("gnumakefile"@, "🔨"@),
        ("dockerfile"@, "🐳"@),
        ("containerfile"@, "🐳"@),
        ("license"@, "📜"@),
        ("license.md"@, "📜"@),
        ("license.txt"@, "📜"@),
        ("readme"@, "📖"@),
        ("readme.md"@, "📖"@),
        ("readme.txt"@, "📖"@),
        (".gitignore"@, "🙈"@),
        (".gitattributes"@, "🙈"@),
        (".gitmodules"@, "🙈"@),
        (".git"@, "📦"@),
        (".env"@, "⚙️"@),
        (".envrc"@, "⚙️"@),
    ]
}

/// The built-in icon configuration.
pub open spec fn default_icons() -> IconsV {
    IconsV {
        directory: "📁"@,
        symlink: "🔗"@,
        file: "📄"@,
        executable: "📄"@,
        extensions: default_extensions(),
        filenames: default_filenames(),
    }
}

/// The built-in color configuration.
pub open spec fn default_colors() -> ColorsV {
    ColorsV {
        directory: "blue"@,
        symlink: "cyan"@,
        executable: "green"@,
        file: "white"@,
        git_modified: "red"@,
        git_staged: "green"@,
        git_untracked: "yellow"@,
    }
}

/// The built-in git glyph configuration.
pub open spec fn default_git() -> GitV {
    GitV { modified: "●"@, staged: "◐"@, untracked: "?"@, ignored: "◌"@ }
}

/// The built-in configuration.
pub open spec fn default_config() -> ConfigV {
    ConfigV { icons: default_icons(), colors: default_colors(), git: default_git() }
}

/// Append a pair of literal strings to an association list.
fn push_pair(v: &mut Vec<(String, String)>, k: &str, value: &str)
    ensures
        str_pairs_view(final(v)@) == str_pairs_view(old(v)@).push((k@, value@)),
{
    v.push((String::from_str(k), String::from_str(value)));
    proof {
        assert(str_pairs_view(v@) =~= str_pairs_view(old(v)@).push((k@, value@)));
    }
}

impl Default for IconsConfig {
    /// The built-in icon tables.
    #[verifier::rlimit(100)]
    fn default() -> (c: IconsConfig)
        ensures
            c@ == default_icons(),
    {
        let mut extensions: Vec<(String, String)> = Vec::new();
        push_pair(&mut extensions, "rs", "🦀");
        push_pair(&mut extensions, "toml", "⚙️");
        push_pair(&mut extensions, "cfg", "⚙️");
        push_pair(&mut extensions, "conf", "⚙️");
        push_pair(&mut extensions, "ini", "⚙️");
        push_pair(&mut extensions, "config", "⚙️");
        push_pair(&mut extensions, "md", "📝");
        push_pair(&mut extensions, "markdown", "📝");
        push_pair(&mut extensions, "json", "📋");
        push_pair(&mut extensions, "yaml", "📋");
        push_pair(&mut extensions, "yml", "📋");
        push_pair(&mut extensions, "js", "🟨");
        push_pair(&mut extensions, "mjs", "🟨");
        push_pair(&mut extensions, "cjs", "🟨");
        push_pair(&mut extensions, "jsx", "🟨");
        push_pair(&mut extensions, "ts", "🔷");
        push_pair(&mut extensions, "tsx", "🔷");
        push_pair(&mut extensions, "mts", "🔷");
        push_pair(&mut extensions, "cts", "🔷");
        push_pair(&mut extensions, "py", "🐍");
        push_pair(&mut extensions, "pyi", "🐍");
        push_pair(&mut extensions, "pyc", "🐍");
        push_pair(&mut extensions, "go", "🐹");
        push_pair(&mut extensions, "lock", "🔒");
        push_pair(&mut extensions, "sh", "💻");
        push_pair(&mut extensions, "bash", "💻");
        push_pair(&mut extensions, "zsh", "💻");
        push_pair(&mut extensions, "fish", "💻");
        push_pair(&mut extensions, "png", "🖼️");
        push_pair(&mut extensions, "jpg", "🖼️");
        push_pair(&mut extensions, "jpeg", "🖼️");
        push_pair(&mut extensions, "gif", "🖼️");
        push_pair(&mut extensions, "svg", "🖼️");
        push_pair(&mut extensions, "ico", "🖼️");
        push_pair(&mut extensions, "webp", "🖼️");
        push_pair(&mut extensions, "mp4", "🎬");
        push_pair(&mut extensions, "mkv", "🎬");
        push_pair(&mut extensions, "avi", "🎬");
        push_pair(&mut extensions, "mov", "🎬");
        push_pair(&mut extensions, "webm", "🎬");
        push_pair(&mut extensions, "mp3", "🎵");
        push_pair(&mut extensions, "wav", "🎵");
        push_pair(&mut extensions, "flac", "🎵");
        push_pair(&mut extensions, "ogg", "🎵");
        push_pair(&mut extensions, "m4a", "🎵");
        push_pair(&mut extensions, "zip", "📦");
        push_pair(&mut extensions, "tar", "📦");
        push_pair(&mut extensions, "gz", "📦");
        push_pair(&mut extensions, "bz2", "📦");
        push_pair(&mut extensions, "xz", "📦");
        push_pair(&mut extensions, "7z", "📦");
        push_pair(&mut extensions, "rar", "📦");
        push_pair(&mut extensions, "html", "🌐");
        push_pair(&mut extensions, "htm", "🌐");
        push_pair(&mut extensions, "css", "🎨");
        push_pair(&mut extensions, "scss", "🎨");
        push_pair(&mut extensions, "sass", "🎨");
        push_pair(&mut extensions, "less", "🎨");
        push_pair(&mut extensions, "java", "☕");
        push_pair(&mut extensions, "jar", "☕");
        push_pair(&mut extensions, "class", "☕");
        push_pair(&mut extensions, "c", "🔧");
        push_pair(&mut extensions, "h", "🔧");
        push_pair(&mut extensions, "cpp", "🔧");
        push_pair(&mut extensions, "cc", "🔧");
        push_pair(&mut extensions, "cxx", "🔧");
        push_pair(&mut extensions, "hpp", "🔧");
        push_pair(&mut extensions, "hxx", "🔧");
        push_pair(&mut extensions, "sql", "🗄️");
        push_pair(&mut extensions, "db", "🗄️");
        push_pair(&mut extensions, "sqlite", "🗄️");
        push_pair(&mut extensions, "sqlite3", "🗄️");
        proof {
            assert(str_pairs_view(extensions@) =~= default_extensions());
        }
        let mut filenames: Vec<(String, String)> = Vec::new();
        push_pair(&mut filenames, "cargo.toml", "🦀");
        push_pair(&mut filenames, "cargo.lock", "🦀");
        push_pair(&mut filenames, "makefile", "🔨");
        push_pair(&mut filenames, "gnumakefile", "🔨");
        push_pair(&mut filenames, "dockerfile", "🐳");
        push_pair(&mut filenames, "containerfile", "🐳");
        push_pair(&mut filenames, "license", "📜");
        push_pair(&mut filenames, "license.md", "📜");
        push_pair(&mut filenames, "license.txt", "📜");
        push_pair(&mut filenames, "readme", "📖");
        push_pair(&mut filenames, "readme.md", "📖");
        push_pair(&mut filenames, "readme.txt", "📖");
        push_pair(&mut filenames, ".gitignore", "🙈");
        push_pair(&mut filenames, ".gitattributes", "🙈");
        push_pair(&mut filenames, ".gitmodules", "🙈");
        push_pair(&mut filenames, ".git", "📦");
        push_pair(&mut filenames, ".env", "⚙️");
        push_pair(&mut filenames, ".envrc", "⚙️");
        proof {
            assert(str_pairs_view(filenames@) =~= default_filenames());
        }
        let c = IconsConfig {
            directory: String::from_str("📁"),
            symlink: String::from_str("🔗"),
            file: String::from_str("📄"),
            executable: String::from_str("📄"),
            extensions,
            filenames,
        };
        proof {
            assert(c@ =~= default_icons());
        }
        c
    }
}

impl Default for ColorsConfig {
    /// The built-in colors.
    fn default() -> (c: ColorsConfig)
        ensures
            c@ == default_colors(),
    {
        let c = ColorsConfig {
            directory: String::from_str("blue"),
            symlink: String::from_str("cyan"),
            executable: String::from_str("green"),
            file: String::from_str("white"),
            git_modified: String::from_str("red"),
            git_staged: String::from_str("green"),
            git_untracked: String::from_str("yellow"),
        };
        proof {
            assert(c@ =~= default_colors());
        }
        c
    }
}

impl Default for GitConfig {
    /// The built-in git glyphs.
    fn default() -> (c: GitConfig)
        ensures
            c@ == default_git(),
    {
        let c = GitConfig {
            modified: String::from_str("●"),
            staged: String::from_str("◐"),
            untracked: String::from_str("?"),
            ignored: String::from_str("◌"),
        };
        proof {
            assert(c@ =~= default_git());
        }
        c
    }
}

impl Default for Config {
    /// The built-in configuration.
    fn default() -> (c: Config)
        ensures
            c@ == default_config(),
    {
        let c = Config {
            icons: IconsConfig::default(),
            colors: ColorsConfig::default(),
            git: GitConfig::default(),
        };
        proof {
            assert(c@ =~= default_config());
        }
        c
    }
}

/// The configuration after one `key = value` assignment: a known key sets
/// its field, an `icon.ext.` or `icon.name.` key binds a table entry (the
/// filename lowercased), anything else changes nothing.
pub open spec fn spec_config_set(c: ConfigV, key: Seq<char>, value: Seq<char>) -> ConfigV {
    if key == "icon.directory"@ {
        ConfigV { icons: IconsV { directory: value, ..c.icons }, ..c }
    } else if key == "icon.symlink"@ {
        ConfigV { icons: IconsV { symlink: value, ..c.icons }, ..c }
    } else if key == "icon.file"@ {
        ConfigV { icons: IconsV { file: value, ..c.icons }, ..c }
    } else if key == "icon.executable"@ {
        ConfigV { icons: IconsV { executable: value, ..c.icons }, ..c }
    } else if key == "color.directory"@ {
        ConfigV { colors: ColorsV { directory: value, ..c.colors }, ..c }
    } else if key == "color.symlink"@ {
        ConfigV { colors: ColorsV { symlink: value, ..c.colors }, ..c }
    } else if key == "color.executable"@ {
        ConfigV { colors: ColorsV { executable: value, ..c.colors }, ..c }
    } else if key == "color.file"@ {
        ConfigV { colors: ColorsV { file: value, ..c.colors }, ..c }
    } else if key == "color.git_modified"@ {
        ConfigV { colors: ColorsV { git_modified: value, ..c.colors }, ..c }
    } else if key == "color.git_staged"@ {
        ConfigV { colors: ColorsV { git_staged: value, ..c.colors }, ..c }
    } else if key == "color.git_untracked"@ {
        ConfigV { colors: ColorsV { git_untracked: value, ..c.colors }, ..c }
    } else if key == "git.modified"@ {
        ConfigV { git: GitV { modified: value, ..c.git }, ..c }
    } else if key == "git.staged"@ {
        ConfigV { git: GitV { staged: value, ..c.git }, ..c }
    } else if key == "git.untracked"@ {
        ConfigV { git: GitV { untracked: value, ..c.git }, ..c }
    } else if key == "git.ignored"@ {
        ConfigV { git: GitV { ignored: value, ..c.git }, ..c }
    } else if key.len() >= 9 && key.take(9) == "icon.ext."@ {
        ConfigV {
            icons: IconsV {
                extensions: spec_assoc_set(c.icons.extensions, key.skip(9), value),
                ..c.icons
            },
            ..c
        }
    } else if key.len() >= 10 && key.take(10) == "icon.name."@ {
        ConfigV {
            icons: IconsV {
                filenames: spec_assoc_set(c.icons.filenames, lower_of(key.skip(10)), value),
                ..c.icons
            },
            ..c
        }
    } else {
        c
    }
}

impl Config {
    /// Apply one `key = value` assignment.
    pub fn set(&mut self, key: &str, value: &str)
        ensures
            final(self)@ == spec_config_set(old(self)@, key@, value@),
    {
        let k = String::from_str(key);
        if k.eq(&String::from_str("icon.directory")) {
            self.icons.directory = String::from_str(value);
        } else if k.eq(&String::from_str("icon.symlink")) {
            self.icons.symlink = String::from_str(value);
        } else if k.eq(&String::from_str("icon.file")) {
            self.icons.file = String::from_str(value);
        } else if k.eq(&String::from_str("icon.executable")) {
            self.icons.executable = String::from_str(value);
        } else if k.eq(&String::from_str("color.directory")) {
            self.colors.directory = String::from_str(value);
        } else if k.eq(&String::from_str("color.symlink")) {
            self.colors.symlink = String::from_str(value);
        } else if k.eq(&String::from_str("color.executable")) {
            self.colors.executable = String::from_str(value);
        } else if k.eq(&String::from_str("color.file")) {
            self.colors.file = String::from_str(value);
        } else if k.eq(&String::from_str("color.git_modified")) {
            self.colors.git_modified = String::from_str(value);
        } else if k.eq(&String::from_str("color.git_staged")) {
            self.colors.git_staged = String::from_str(value);
        } else if k.eq(&String::from_str("color.git_untracked")) {
            self.colors.git_untracked = String::from_str(value);
        } else if k.eq(&String::from_str("git.modified")) {
            self.git.modified = String::from_str(value);
        } else if k.eq(&String::from_str("git.staged")) {
            self.git.staged = String::from_str(value);
        } else if k.eq(&String::from_str("git.untracked")) {
            self.git.untracked = String::from_str(value);
        } else if k.eq(&String::from_str("git.ignored")) {
            self.git.ignored = String::from_str(value);
        } else {
            let kv = chars_of(key);
            proof {
                reveal_strlit("icon.ext.");
                reveal_strlit("icon.name.");
                assert("icon.ext."@.len() == 9);
                assert("icon.name."@.len() == 10);
            }
            if has_prefix(&kv, "icon.ext.") {
                let ext = string_of(&chars_from(&kv, 9));
                assoc_set(&mut self.icons.extensions, ext, String::from_str(value));
            } else if has_prefix(&kv, "icon.name.") {
                let tail = string_of(&chars_from(&kv, 10));
                let name = to_lowercase(tail.as_str());
                assoc_set(&mut self.icons.filenames, name, String::from_str(value));
            }
        }
        proof {
            assert(self@ =~= spec_config_set(old(self)@, key@, value@));
        }
    }

    /// The configuration after one text line: blank lines and `#` comments
    /// change nothing; a line with `=` assigns its trimmed key and value.
    pub open spec fn spec_line_effect(c: ConfigV, line: Seq<char>) -> ConfigV {
        let t = trim_spec(line);
        if t.len() == 0 || t[0] == '#' {
            c
        } else {
            let j = find_ch(t, '=');
            if j == t.len() {
                c
            } else {
                spec_config_set(c, trim_spec(t.take(j)), trim_spec(t.skip(j + 1)))
            }
        }
    }

    /// The configuration after a sequence of text lines, in order.
    pub open spec fn spec_load_lines(c: ConfigV, lines: Seq<Seq<char>>) -> ConfigV
        decreases lines.len(),
    {
        if lines.len() == 0 {
            c
        } else {
            Self::spec_load_lines(Self::spec_line_effect(c, lines[0]), lines.drop_first())
        }
    }

    /// The configuration a text loads to: the built-in defaults overridden
    /// by each of its assignment lines.
    pub open spec fn spec_load(content: Seq<char>) -> ConfigV {
        Self::spec_load_lines(default_config(), split_lines(content))
    }

    /// Load a configuration from the text of a configuration file.
    pub fn load(content: &str) -> (c: Config)
        ensures
            c@ == Self::spec_load(content@),
    {
        let mut c = Config::default();
        let chars = chars_of(content);
        let lines = lines_of(&chars);
        let ghost all = split_lines(content@);
        let mut li: usize = 0;
        proof {
            assert(all.skip(0) =~= all);
        }
        while li < lines.len()
            invariant
                li <= lines@.len(),
                lines.deep_view() == all,
                Self::spec_load(content@) == Self::spec_load_lines(c@, all.skip(li as int)),
            decreases lines@.len() - li,
        {
            let line = &lines[li];
            let ghost lv = line@;
            proof {
                assert(lv == all[li as int]);
                assert(all.skip(li as int)[0] == all[li as int]);
                assert(all.skip(li as int).drop_first() =~= all.skip(li + 1));
            }
            let ghost c0 = c@;
            let t = trim_chars(line);
            if t.len() > 0 && t[0] != '#' {
                let mut j: usize = 0;
                while j < t.len() && t[j] != '='
                    invariant
                        j <= t@.len(),
                        forall|idx: int| 0 <= idx < j ==> t@[idx] != '=',
                    decreases t@.len() - j,
                {
                    j = j + 1;
                }
                proof {
                    lemma_find_ch(t@, '=');
                    if find_ch(t@, '=') < j {
                        assert(t@[find_ch(t@, '=')] == '=');
                        assert(false);
                    }
                    if find_ch(t@, '=') > j {
                        assert(j < t@.len());
                        assert(t@[j as int] == '=');
                        assert(false);
                    }
                }
                if j < t.len() {
                    let key_part = chars_take(&t, j);
                    let key = trim_chars(&key_part);
                    let val_part = chars_from(&t, j + 1);
                    let value = trim_chars(&val_part);
                    let key_s = string_of(&key);
                    let value_s = string_of(&value);
                    c.set(key_s.as_str(), value_s.as_str());
                }
            }
            proof {
                assert(c@ == Self::spec_line_effect(c0, lv));
            }
            li = li + 1;
        }
        proof {
            assert(all.skip(li as int).len() == 0);
        }
        c
    }
}

/// The text of the default configuration file.
pub open spec fn default_config_text() -> Seq<char> {
    "# lsn configuration file"@ + "\n"@ + "# Lines starting with # are comments"@ + "\n"@ +
        "# Format: key = value"@ + "\n"@ + ""@ + "\n"@ + "# Icons for file types"@ + "\n"@ +
        "icon.directory = 📁"@ + "\n"@ + "icon.symlink = 🔗"@ + "\n"@ + "icon.file = 📄"@ +
        "\n"@ + "icon.executable = 📄"@ + "\n"@ + ""@ + "\n"@ +
        "# Colors (black, red, green, yellow, blue, magenta, cyan, white)"@ + "\n"@ +
        "# Also: bright_black, bright_red, bright_green, etc."@ + "\n"@ +
        "color.directory = blue"@ + "\n"@ + "color.symlink = cyan"@ + "\n"@ +
        "color.executable = green"@ + "\n"@ + "color.file = white"@ + "\n"@ +
        "color.git_modified = red"@ + "\n"@ + "color.git_staged = green"@ + "\n"@ +
        "color.git_untracked = yellow"@ + "\n"@ + ""@ + "\n"@ + "# Git status symbols"@ +
        "\n"@ + "git.modified = ●"@ + "\n"@ + "git.staged = ◐"@ + "\n"@ +
        "git.untracked = ?"@ + "\n"@ + "git.ignored = ◌"@ + "\n"@ + ""@ + "\n"@ +
        "# Extension icons (icon.ext.<extension> = <icon>)"@ + "\n"@ + "# icon.ext.rs = 🦀"@ +
        "\n"@ + "# icon.ext.py = 🐍"@ + "\n"@ + "# icon.ext.js = 🟨"@ + "\n"@ +
        "# icon.ext.ts = 🔷"@ + "\n"@ + "# icon.ext.go = 🐹"@ + "\n"@ + ""@ + "\n"@ +
        "# Filename icons (icon.name.<filename> = <icon>)"@ + "\n"@ +
        "# icon.name.Dockerfile = 🐳"@ + "\n"@ + "# icon.name.Makefile = 🔨"@ + "\n"@ +
        "# icon.name.README.md = 📖"@
}

impl Config {
    /// Generate default configuration file content.
    pub fn generate_default() -> (r: String)
        ensures
            r@ == default_config_text(),
    {
        let mut out = String::from_str("# lsn configuration file");
        out.append("\n");
        out.append("# Lines starting with # are comments");
        out.append("\n");
        out.append("# Format: key = value");
        out.append("\n");
        out.append("");
        out.append("\n");
        out.append("# Icons for file types");
        out.append("\n");
        out.append("icon.directory = 📁");
        out.append("\n");
        out.append("icon.symlink = 🔗");
        out.append("\n");
        out.append("icon.file = 📄");
        out.append("\n");
        out.append("icon.executable = 📄");
        out.append("\n");
        out.append("");
        out.append("\n");
        out.append("# Colors (black, red, green, yellow, blue, magenta, cyan, white)");
        out.append("\n");
        out.append("# Also: bright_black, bright_red, bright_green, etc.");
        out.append("\n");
        out.append("color.directory = blue");
        out.append("\n");
        out.append("color.symlink = cyan");
        out.append("\n");
        out.append("color.executable = green");
        out.append("\n");
        out.append("color.file = white");
        out.append("\n");
        out.append("color.git_modified = red");
        out.append("\n");
        out.append("color.git_staged = green");
        out.append("\n");
        out.append("color.git_untracked = yellow");
        out.append("\n");
        out.append("");
        out.append("\n");
        out.append("# Git status symbols");
        out.append("\n");
        out.append("git.modified = ●");
        out.append("\n");
        out.append("git.staged = ◐");
        out.append("\n");
        out.append("git.untracked = ?");
        out.append("\n");
        out.append("git.ignored = ◌");
        out.append("\n");
        out.append("");
        out.append("\n");
        out.append("# Extension icons (icon.ext.<extension> = <icon>)");
        out.append("\n");
        out.append("# icon.ext.rs = 🦀");
        out.append("\n");
        out.append("# icon.ext.py = 🐍");
        out.append("\n");
        out.append("# icon.ext.js = 🟨");
        out.append("\n");
        out.append("# icon.ext.ts = 🔷");
        out.append("\n");
        out.append("# icon.ext.go = 🐹");
        out.append("\n");
        out.append("");
        out.append("\n");
        out.append("# Filename icons (icon.name.<filename> = <icon>)");
        out.append("\n");
        out.append("# icon.name.Dockerfile = 🐳");
        out.append("\n");
        out.append("# icon.name.Makefile = 🔨");
        out.append("\n");
        out.append("# icon.name.README.md = 📖");
        out
    }
}

/// Returns the built-in configuration; a caller that keeps a configuration
/// file applies its lines with [`Config::load`].
pub fn get_config() -> (c: Config)
    ensures
        c@ == default_config(),
{
    Config::default()
}

} // verus!
