//! Icon lookup: the icon of a file follows from its type, its special
//! (lowercased) filename, its lowercased extension, or its executable bit,
//! in that order of precedence.

use crate::config::{str_assoc, IconsConfig, IconsV};
use crate::display::FileMeta;
use crate::text::{chars_from, chars_of, lower_of, string_of, to_lowercase};
use vstd::prelude::*;
use vstd::string::*;

verus! {

/// Index of the last `.` in a name, `-1` if there is none.
pub open spec fn last_dot(name: Seq<char>) -> int
    decreases name.len(),
{
    if name.len() == 0 {
        -1
    } else if name.last() == '.' {
        name.len() - 1
    } else {
        last_dot(name.drop_last())
    }
}

/// `last_dot` finds the last dot exactly.
pub proof fn lemma_last_dot(name: Seq<char>)
    ensures
        -1 <= last_dot(name) < name.len(),
        last_dot(name) >= 0 ==> name[last_dot(name)] == '.',
        forall|j: int| last_dot(name) < j < name.len() ==> name[j] != '.',
    decreases name.len(),
{
    if name.len() > 0 && name.last() != '.' {
        lemma_last_dot(name.drop_last());
        assert(forall|j: int| 0 <= j < name.len() - 1 ==> name.drop_last()[j] == name[j]);
    }
}

/// The extension of a file name: what follows the last dot.  A name without
/// a dot, or whose only dot leads it (a hidden file), has none.
pub open spec fn ext_of(name: Seq<char>) -> Option<Seq<char>> {
    if last_dot(name) <= 0 {
        None
    } else {
        Some(name.skip(last_dot(name) + 1))
    }
}

/// The extension of a file name held as characters.
fn extension_chars(name: &Vec<char>) -> (r: Option<Vec<char>>)
    ensures
        match r {
            Some(e) => ext_of(name@) == Some(e@),
            None => ext_of(name@) is None,
        },
{
    let mut k: usize = name.len();
    while k > 0 && name[k - 1] != '.'
        invariant
            k <= name@.len(),
            forall|j: int| k <= j < name@.len() ==> name@[j] != '.',
        decreases k,
    {
        k = k - 1;
    }
    proof {
        lemma_last_dot(name@);
        if k == 0 {
            if last_dot(name@) >= 0 {
                assert(name@[last_dot(name@)] == '.');
            }
        } else {
            assert(name@[k - 1] == '.');
            if last_dot(name@) < k - 1 {
                assert(false);
            }
            if last_dot(name@) > k - 1 {
                assert(name@[last_dot(name@)] != '.');
                assert(false);
            }
        }
    }
    if k <= 1 {
        None
    } else {
        Some(chars_from(name, k))
    }
}

/// The icon of a file: directory and symlink icons first, then a special
/// filename match, then an extension match (both case-folded), then the
/// executable icon, and the plain file icon last.
pub open spec fn spec_icon(name: Seq<char>, meta: FileMeta, ic: IconsV) -> Seq<char> {
    if meta.is_dir {
        ic.directory
    } else if meta.is_symlink {
        ic.symlink
    } else if str_assoc(ic.filenames, lower_of(name)) is Some {
        str_assoc(ic.filenames, lower_of(name)).unwrap()
    } else if ext_of(name) is Some && str_assoc(ic.extensions, lower_of(ext_of(name).unwrap()))
        is Some {
        str_assoc(ic.extensions, lower_of(ext_of(name).unwrap())).unwrap()
    } else if meta.mode & 0o111 != 0 {
        ic.executable
    } else {
        ic.file
    }
}

/// Get the icon for a file based on its name and metadata.
pub fn get_icon(name: &str, meta: &FileMeta, icons: &IconsConfig) -> (r: String)
    ensures
        r@ == spec_icon(name@, *meta, icons@),
{
    if meta.is_dir {
        return icons.directory.clone();
    }
    if meta.is_symlink {
        return icons.symlink.clone();
    }
    let name_lower = to_lowercase(name);
    match crate::config::assoc_get(&icons.filenames, &name_lower) {
        Some(icon) => {
            return icon.clone();
        },
        None => {},
    }
    let nv = chars_of(name);
    match extension_chars(&nv) {
        Some(ext) => {
            let ext_s = string_of(&ext);
            let ext_lower = to_lowercase(ext_s.as_str());
            match crate::config::assoc_get(&icons.extensions, &ext_lower) {
                Some(icon) => {
                    return icon.clone();
                },
                None => {},
            }
        },
        None => {},
    }
    if is_executable(meta) {
        icons.executable.clone()
    } else {
        icons.file.clone()
    }
}

/// Check if a file is executable: any of its execute bits is set.
pub fn is_executable(meta: &FileMeta) -> (r: bool)
    ensures
        r == (meta.mode & 0o111 != 0),
{
    meta.mode & 0o111 != 0
}

} // verus!
