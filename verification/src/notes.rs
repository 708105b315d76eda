//! Note storage: free-text notes keyed by absolute path strings, parsed
//! from and serialized to a flat `path: text` line format.

use crate::config::{spec_assoc_set, assoc_set, str_assoc, str_pairs_view};
use crate::display::{insert_sorted, key_le, keys_view, sort_keys};
use crate::text::{
    chars_from, chars_of, chars_take, lines_of, split_lines, string_of,
};
use vstd::prelude::*;
use vstd::string::*;

verus! {

/// The notes of a store: paths bound to note texts, first binding of a
/// path authoritative.
pub struct Notes {
    entries: Vec<(String, String)>,
}

/// Index of the first `: ` separator in a line, or `s.len()` if none.
pub open spec fn find_sep(s: Seq<char>) -> int
    decreases s.len(),
{
    if s.len() < 2 {
        s.len() as int
    } else if s[0] == ':' && s[1] == ' ' {
        0
    } else {
        1 + find_sep(s.drop_first())
    }
}

/// `find_sep` stays within bounds and finds the separator exactly.
pub proof fn lemma_find_sep(s: Seq<char>)
    ensures
        0 <= find_sep(s) <= s.len(),
        find_sep(s) + 1 < s.len() ==> s[find_sep(s)] == ':' && s[find_sep(s) + 1] == ' ',
        forall|j: int|
            0 <= j < find_sep(s) && j + 1 < s.len() ==> !(#[trigger] s[j] == ':' && s[j + 1]
                == ' '),
    decreases s.len(),
{
    if s.len() >= 2 && !(s[0] == ':' && s[1] == ' ') {
        lemma_find_sep(s.drop_first());
        assert(forall|j: int|
            0 <= j < s.drop_first().len() ==> s.drop_first()[j] == s[j + 1]);
        assert forall|j: int|
            0 <= j < find_sep(s) && j + 1 < s.len() implies !(#[trigger] s[j] == ':' && s[j + 1]
            == ' ') by {
            if j > 0 {
                assert(s.drop_first()[j - 1] == s[j]);
                assert(s.drop_first()[j] == s[j + 1]);
            }
        }
    }
}

/// The effect of one stored line: a line holding a `: ` separator binds the
/// path before it to the text after it; any other line is skipped.
pub open spec fn note_line_effect(
    acc: Seq<(Seq<char>, Seq<char>)>,
    line: Seq<char>,
) -> Seq<(Seq<char>, Seq<char>)> {
    let j = find_sep(line);
    if j + 1 < line.len() {
        spec_assoc_set(acc, line.take(j), line.skip(j + 2))
    } else {
        acc
    }
}

/// The bindings accumulated over a sequence of stored lines.
pub open spec fn notes_load_lines(
    acc: Seq<(Seq<char>, Seq<char>)>,
    lines: Seq<Seq<char>>,
) -> Seq<(Seq<char>, Seq<char>)>
    decreases lines.len(),
{
    if lines.len() == 0 {
        acc
    } else {
        notes_load_lines(note_line_effect(acc, lines[0]), lines.drop_first())
    }
}

/// The bindings a notes file text parses to.
pub open spec fn spec_parse_notes(text: Seq<char>) -> Seq<(Seq<char>, Seq<char>)> {
    notes_load_lines(Seq::empty(), split_lines(text))
}

impl Notes {
    /// The path-to-text bindings this store holds, in order.
    pub closed spec fn view(&self) -> Seq<(Seq<char>, Seq<char>)> {
        str_pairs_view(self.entries@)
    }

    /// An empty store.
    pub fn new() -> (n: Notes)
        ensures
            n@ == Seq::<(Seq<char>, Seq<char>)>::empty(),
    {
        let n = Notes { entries: Vec::new() };
        proof {
            assert(n@ =~= Seq::<(Seq<char>, Seq<char>)>::empty());
        }
        n
    }
}

/// Load all notes from the text of a notes file.
pub fn parse_notes(text: &str) -> (n: Notes)
    ensures
        n@ == spec_parse_notes(text@),
{
    let chars = chars_of(text);
    let lines = lines_of(&chars);
    let mut n = Notes { entries: Vec::new() };
    let ghost all = split_lines(text@);
    let mut li: usize = 0;
    proof {
        assert(all.skip(0) =~= all);
        assert(n@ =~= Seq::<(Seq<char>, Seq<char>)>::empty());
    }
    while li < lines.len()
        invariant
            li <= lines@.len(),
            lines.deep_view() == all,
            spec_parse_notes(text@) == notes_load_lines(n@, all.skip(li as int)),
        decreases lines@.len() - li,
    {
        let line = &lines[li];
        let ghost lv = line@;
        proof {
            assert(lv == all[li as int]);
            assert(all.skip(li as int)[0] == all[li as int]);
            assert(all.skip(li as int).drop_first() =~= all.skip(li + 1));
        }
        let ghost acc0 = n@;
        let nlen = line.len();
        let mut j: usize = 0;
        if nlen >= 2 {
            while j < nlen - 1 && !(line[j] == ':' && line[j + 1] == ' ')
                invariant
                    j <= nlen - 1,
                    2 <= nlen == line@.len(),
                    forall|idx: int|
                        0 <= idx < j ==> !(#[trigger] line@[idx] == ':' && line@[idx + 1]
                            == ' '),
                decreases line@.len() - j,
            {
                j = j + 1;
            }
        }
        proof {
            lemma_find_sep(lv);
            if j + 1 < lv.len() {
                assert(lv[j as int] == ':' && lv[j + 1] == ' ');
                if find_sep(lv) < j {
                    assert(!(lv[find_sep(lv)] == ':' && lv[find_sep(lv) + 1] == ' '));
                    assert(false);
                }
                if find_sep(lv) > j {
                    assert(false);
                }
                assert(find_sep(lv) == j);
            } else {
                if find_sep(lv) + 1 < lv.len() {
                    assert(lv.len() >= 2);
                    assert(j == lv.len() - 1);
                    assert(!(lv[find_sep(lv)] == ':' && lv[find_sep(lv) + 1] == ' '));
                    assert(false);
                }
            }
        }
        if j + 1 < line.len() {
            let key_part = chars_take(line, j);
            let val_part = chars_from(line, j + 2);
            assoc_set(&mut n.entries, string_of(&key_part), string_of(&val_part));
        }
        proof {
            assert(n@ == note_line_effect(acc0, lv));
        }
        li = li + 1;
    }
    proof {
        assert(all.skip(li as int).len() == 0);
    }
    n
}

/// Set a note for a path, replacing any earlier note on it.
pub fn set_note(notes: &mut Notes, path: &str, note: &str)
    ensures
        final(notes)@ == spec_assoc_set(old(notes)@, path@, note@),
{
    assoc_set(&mut notes.entries, String::from_str(path), String::from_str(note));
}

/// Get the note for a path, if one exists.
pub fn get_note(notes: &Notes, path: &str) -> (r: Option<String>)
    ensures
        match r {
            Some(s) => str_assoc(notes@, path@) == Some(s@),
            None => str_assoc(notes@, path@) is None,
        },
{
    match crate::config::assoc_get(&notes.entries, &String::from_str(path)) {
        Some(s) => Some(s.clone()),
        None => None,
    }
}

/// The bindings with the first one carrying the path removed.
pub open spec fn spec_assoc_remove(
    s: Seq<(Seq<char>, Seq<char>)>,
    k: Seq<char>,
) -> Seq<(Seq<char>, Seq<char>)>
    decreases s.len(),
{
    if s.len() == 0 {
        s
    } else if s[0].0 == k {
        s.drop_first()
    } else {
        seq![s[0]] + spec_assoc_remove(s.drop_first(), k)
    }
}

/// Removing the first position carrying the key realizes
/// `spec_assoc_remove`.
proof fn lemma_assoc_remove_at(s: Seq<(Seq<char>, Seq<char>)>, k: Seq<char>, i: int)
    requires
        0 <= i < s.len(),
        s[i].0 == k,
        forall|j: int| 0 <= j < i ==> s[j].0 != k,
    ensures
        spec_assoc_remove(s, k) == s.take(i) + s.skip(i + 1),
    decreases i,
{
    if i == 0 {
        assert(spec_assoc_remove(s, k) =~= s.take(0) + s.skip(1));
    } else {
        assert(forall|j: int|
            0 <= j < i - 1 ==> s.drop_first()[j] == s[j + 1]);
        assert(s.drop_first()[i - 1] == s[i]);
        lemma_assoc_remove_at(s.drop_first(), k, i - 1);
        assert(seq![s[0]] + (s.drop_first().take(i - 1) + s.drop_first().skip(i)) =~= s.take(i)
            + s.skip(i + 1));
    }
}

/// No binding carries the key: removal changes nothing.
proof fn lemma_assoc_remove_absent(s: Seq<(Seq<char>, Seq<char>)>, k: Seq<char>)
    requires
        forall|j: int| 0 <= j < s.len() ==> s[j].0 != k,
    ensures
        spec_assoc_remove(s, k) == s,
    decreases s.len(),
{
    if s.len() > 0 {
        assert(forall|j: int|
            0 <= j < s.drop_first().len() ==> s.drop_first()[j] == s[j + 1]);
        lemma_assoc_remove_absent(s.drop_first(), k);
        assert(seq![s[0]] + s.drop_first() =~= s);
    }
}

/// Remove the note from a path.  Returns whether one was removed: absent
/// paths leave the store unchanged and report failure.
pub fn remove_note(notes: &mut Notes, path: &str) -> (removed: bool)
    ensures
        final(notes)@ == spec_assoc_remove(old(notes)@, path@),
        removed == (str_assoc(old(notes)@, path@) is Some),
{
    let key = String::from_str(path);
    let mut i: usize = 0;
    proof {
        assert(notes@.skip(0) =~= notes@);
    }
    while i < notes.entries.len()
        invariant
            i <= notes.entries@.len(),
            notes@ == old(notes)@,
            notes.entries@ == old(notes).entries@,
            key@ == path@,
            forall|j: int| 0 <= j < i ==> notes@[j].0 != path@,
            str_assoc(notes@, path@) == str_assoc(notes@.skip(i as int), path@),
        decreases notes.entries@.len() - i,
    {
        proof {
            let ii = i as int;
            assert(notes@[ii] == (notes.entries@[ii].0@, notes.entries@[ii].1@));
            assert(notes@.skip(i as int)[0] == notes@[i as int]);
            assert(notes@.skip(i as int).drop_first() =~= notes@.skip(i + 1));
        }
        if notes.entries[i].0.eq(&key) {
            let ghost pre = notes@;
            notes.entries.remove(i);
            proof {
                lemma_assoc_remove_at(pre, path@, i as int);
                assert(notes@ =~= pre.take(i as int) + pre.skip(i + 1));
            }
            return true;
        }
        i = i + 1;
    }
    proof {
        assert(notes@.skip(i as int).len() == 0);
        lemma_assoc_remove_absent(notes@, path@);
    }
    false
}

/// The positions of the bindings ordered by path, ties (never present
/// among distinct bindings of one store) kept in insertion order.
pub open spec fn notes_order(pairs: Seq<(Seq<char>, Seq<char>)>) -> Seq<int> {
    sort_keys(pair_keys(pairs)).map_values(|p: (Seq<char>, int)| p.1)
}

/// Each binding's path paired with its position.
pub open spec fn pair_keys(pairs: Seq<(Seq<char>, Seq<char>)>) -> Seq<(Seq<char>, int)>
    decreases pairs.len(),
{
    if pairs.len() == 0 {
        Seq::empty()
    } else {
        pair_keys(pairs.drop_last()).push((pairs.last().0, pairs.len() - 1))
    }
}

/// The serialized form of the bindings from position `k` of the sorted
/// order: one `path: text` line each.
pub open spec fn notes_text(
    pairs: Seq<(Seq<char>, Seq<char>)>,
    ord: Seq<int>,
    k: int,
) -> Seq<char>
    decreases ord.len() - k,
{
    if k < 0 || k >= ord.len() {
        Seq::empty()
    } else {
        (if 0 <= ord[k] < pairs.len() {
            pairs[ord[k]].0 + ": "@ + pairs[ord[k]].1 + "\n"@
        } else {
            Seq::empty()
        }) + notes_text(pairs, ord, k + 1)
    }
}

/// The full serialized form of a store: its bindings ordered by path.
pub open spec fn spec_render_notes(pairs: Seq<(Seq<char>, Seq<char>)>) -> Seq<char> {
    notes_text(pairs, notes_order(pairs), 0)
}

/// Serialize all notes to the text of a notes file, ordered by path.
pub fn render_notes(notes: &Notes) -> (r: String)
    ensures
        r@ == spec_render_notes(notes@),
{
    let ghost pairs = notes@;
    let mut keys: Vec<(Vec<char>, usize)> = Vec::new();
    let mut i: usize = 0;
    proof {
        assert(pairs.take(0) =~= Seq::<(Seq<char>, Seq<char>)>::empty());
        assert(keys_view(keys@) =~= pair_keys(pairs.take(0)));
    }
    while i < notes.entries.len()
        invariant
            i <= notes.entries@.len(),
            pairs == notes@,
            pairs.len() == notes.entries@.len(),
            keys_view(keys@) == pair_keys(pairs.take(i as int)),
        decreases notes.entries@.len() - i,
    {
        proof {
            assert(pairs[i as int] == (notes.entries@[i as int].0@, notes.entries@[i as int].1@));
            assert(pairs.take(i + 1).drop_last() =~= pairs.take(i as int));
            assert(pairs.take(i + 1).last() == pairs[i as int]);
        }
        let kc = chars_of(notes.entries[i].0.as_str());
        keys.push((kc, i));
        proof {
            assert(keys_view(keys@) =~= pair_keys(pairs.take(i as int)).push(
                (pairs[i as int].0, i as int),
            ));
        }
        i = i + 1;
    }
    proof {
        assert(pairs.take(pairs.len() as int) =~= pairs);
    }
    let ghost vk = pair_keys(pairs);
    let mut sorted: Vec<(Vec<char>, usize)> = Vec::new();
    let mut t: usize = 0;
    proof {
        assert(vk.take(0) =~= Seq::<(Seq<char>, int)>::empty());
        assert(keys_view(keys@).skip(0) =~= keys_view(keys@));
        assert(keys_view(keys@).len() == keys@.len());
        assert(vk.len() == keys@.len());
    }
    let kn = keys.len();
    proof {
        assert(vk.len() == kn);
    }
    while keys.len() > 0
        invariant
            t <= vk.len(),
            vk.len() <= usize::MAX,
            vk == pair_keys(pairs),
            keys_view(keys@) == vk.skip(t as int),
            keys_view(sorted@) == sort_keys(vk.take(t as int)),
            t + keys@.len() == vk.len(),
        decreases keys@.len(),
    {
        let x = keys.remove(0);
        proof {
            assert(keys_view(keys@) =~= vk.skip(t as int).drop_first());
            assert(vk.skip(t as int).drop_first() =~= vk.skip(t + 1));
            assert((x.0@, x.1 as int) == vk.skip(t as int)[0]);
            assert(vk.skip(t as int)[0] == vk[t as int]);
        }
        insert_sorted(&mut sorted, x);
        proof {
            assert(vk.take(t + 1).drop_last() =~= vk.take(t as int));
            assert(vk.take(t + 1).last() == vk[t as int]);
        }
        t = t + 1;
    }
    proof {
        assert(vk.take(t as int) =~= vk);
        assert(keys_view(sorted@) == sort_keys(vk));
    }
    let ghost ordi = notes_order(pairs);
    proof {
        lemma_pair_keys_bounds(pairs);
        lemma_sort_pair_elems(vk);
        assert(forall|k: int|
            0 <= k < ordi.len() ==> 0 <= #[trigger] ordi[k] < pairs.len()) by {
            assert forall|k: int|
                0 <= k < ordi.len() implies 0 <= #[trigger] ordi[k] < pairs.len() by {
                let srt = sort_keys(vk);
                assert(srt.contains(srt[k]));
                assert(vk.contains(srt[k]));
                assert(ordi[k] == srt[k].1);
            }
        }
    }
    let mut out = String::new();
    let ghost target_text = spec_render_notes(pairs);
    proof {
        assert(target_text == notes_text(pairs, ordi, 0));
        assert(out@ + notes_text(pairs, ordi, 0) =~= notes_text(pairs, ordi, 0));
    }
    let mut k: usize = 0;
    while k < sorted.len()
        invariant
            k <= sorted@.len(),
            pairs == notes@,
            pairs.len() == notes.entries@.len(),
            keys_view(sorted@) == sort_keys(pair_keys(pairs)),
            ordi == notes_order(pairs),
            ordi.len() == sorted@.len(),
            forall|j: int| 0 <= j < ordi.len() ==> 0 <= #[trigger] ordi[j] < pairs.len(),
            target_text == out@ + notes_text(pairs, ordi, k as int),
        decreases sorted@.len() - k,
    {
        let idx = sorted[k].1;
        proof {
            let kk = k as int;
            assert(keys_view(sorted@)[kk] == (sorted@[kk].0@, sorted@[kk].1 as int));
            assert(ordi[kk] == sort_keys(pair_keys(pairs))[kk].1);
            assert(idx as int == ordi[kk]);
            let di = idx as int;
            assert(pairs[di] == (notes.entries@[di].0@, notes.entries@[di].1@));
        }
        let ghost o0 = out@;
        out.append(notes.entries[idx].0.as_str());
        out.append(": ");
        out.append(notes.entries[idx].1.as_str());
        out.append("\n");
        proof {
            assert(out@ =~= o0 + (pairs[ordi[k as int]].0 + ": "@ + pairs[ordi[k as int]].1
                + "\n"@));
            assert(notes_text(pairs, ordi, k as int) =~= (pairs[ordi[k as int]].0 + ": "@
                + pairs[ordi[k as int]].1 + "\n"@) + notes_text(pairs, ordi, k + 1));
            assert(o0 + ((pairs[ordi[k as int]].0 + ": "@ + pairs[ordi[k as int]].1 + "\n"@)
                + notes_text(pairs, ordi, k + 1)) =~= out@ + notes_text(pairs, ordi, k + 1));
        }
        k = k + 1;
    }
    proof {
        assert(notes_text(pairs, ordi, sorted@.len() as int) =~= Seq::<char>::empty());
        assert(out@ + Seq::<char>::empty() =~= out@);
    }
    out
}

/// Every key position of a store lies within its binding list.
proof fn lemma_pair_keys_bounds(pairs: Seq<(Seq<char>, Seq<char>)>)
    ensures
        pair_keys(pairs).len() == pairs.len(),
        forall|e: (Seq<char>, int)| pair_keys(pairs).contains(e) ==> 0 <= e.1 < pairs.len(),
    decreases pairs.len(),
{
    if pairs.len() > 0 {
        lemma_pair_keys_bounds(pairs.drop_last());
        assert forall|e: (Seq<char>, int)|
            pair_keys(pairs).contains(e) implies 0 <= e.1 < pairs.len() by {
            let vk = pair_keys(pairs);
            let pre = pair_keys(pairs.drop_last());
            let i = choose|i: int| 0 <= i < vk.len() && vk[i] == e;
            if i < pre.len() {
                assert(pre[i] == e);
                assert(pre.contains(e));
            }
        }
    }
}

/// Sorting key pairs only rearranges them.
proof fn lemma_sort_pair_elems(s: Seq<(Seq<char>, int)>)
    ensures
        sort_keys(s).len() == s.len(),
        forall|e: (Seq<char>, int)| sort_keys(s).contains(e) ==> s.contains(e),
    decreases s.len(),
{
    if s.len() > 0 {
        lemma_sort_pair_elems(s.drop_last());
        lemma_insert_pair_elems(s.last(), sort_keys(s.drop_last()));
        assert forall|e: (Seq<char>, int)| sort_keys(s).contains(e) implies s.contains(e) by {
            if e == s.last() {
                assert(s[s.len() - 1] == e);
            } else {
                assert(sort_keys(s.drop_last()).contains(e));
                assert(s.drop_last().contains(e));
                let j = choose|j: int| 0 <= j < s.drop_last().len() && s.drop_last()[j] == e;
                assert(s[j] == e);
            }
        }
    }
}

/// Insertion only adds the new key pair.
proof fn lemma_insert_pair_elems(x: (Seq<char>, int), s: Seq<(Seq<char>, int)>)
    ensures
        crate::display::insert_key(x, s).len() == s.len() + 1,
        forall|e: (Seq<char>, int)|
            crate::display::insert_key(x, s).contains(e) ==> e == x || s.contains(e),
    decreases s.len(),
{
    if s.len() == 0 {
    } else if key_le(x, s[0]) {
    } else {
        lemma_insert_pair_elems(x, s.drop_first());
        assert forall|e: (Seq<char>, int)|
            crate::display::insert_key(x, s).contains(e) implies e == x || s.contains(e) by {
            let r = crate::display::insert_key(x, s);
            let i = choose|i: int| 0 <= i < r.len() && r[i] == e;
            if i == 0 {
                assert(s[0] == e);
            } else {
                assert(crate::display::insert_key(x, s.drop_first())[i - 1] == e);
                assert(crate::display::insert_key(x, s.drop_first()).contains(e));
                if s.drop_first().contains(e) {
                    let j = choose|j: int|
                        0 <= j < s.drop_first().len() && s.drop_first()[j] == e;
                    assert(s[j + 1] == e);
                }
            }
        }
    }
}

} // verus!
