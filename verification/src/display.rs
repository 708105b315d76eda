//! Rendering of directory listings: flat lists and recursive trees, each in a
//! styled (ANSI-colored) and a plain form that differ only in styling bytes.

use crate::config::{
    color_code, color_code_chars, parse_color, spec_parse_color, str_assoc, ColorName, ColorsConfig,
    ColorsV, Config, ConfigV, GitConfig, GitV, IconsV,
};
use crate::git::{spec_get, GitStatus, StatusMap};
use crate::icons::{get_icon, spec_icon};
use crate::text::{
    chars_eq, chars_le, chars_of, dec_digits, esc_state, lex_le, lower_of, no_esc, no_nl,
    pad_left_spec, pad_right_spec, push_char, push_chars, push_pad_left, push_pad_right,
    strip_ansi, strip_ansi_from, to_lowercase, u64_to_dec,
};
use crate::text::{lemma_strip_clean, lemma_strip_concat};
use vstd::prelude::*;
use vstd::string::*;

verus! {

/// Display options for listing.
#[derive(Clone)]
pub struct DisplayOptions {
    pub show_all: bool,
    pub long_format: bool,
    pub show_icons: bool,
    pub human_readable: bool,
    pub show_git: bool,
    pub tree_view: bool,
}

/// The opening ANSI sequence of a styled span.
pub open spec fn style_open(c: ColorName, bold: bool) -> Seq<char> {
    seq!['\u{1b}', '\u{5b}'] + (if bold {
        seq!['1', ';']
    } else {
        Seq::empty()
    }) + color_code(c) + seq!['m']
}

/// The ANSI reset sequence that closes a styled span.
pub open spec fn style_reset() -> Seq<char> {
    seq!['\u{1b}', '\u{5b}', '0', 'm']
}

/// A span of text wrapped in color (and optionally bold) styling bytes.
pub open spec fn styled_wrap(s: Seq<char>, c: ColorName, bold: bool) -> Seq<char> {
    style_open(c, bold) + s + style_reset()
}

/// Wrap text in ANSI styling: color, optionally bold.
pub fn paint(s: &str, color: &ColorName, bold: bool) -> (r: String)
    ensures
        r@ == styled_wrap(s@, *color, bold),
{
    let mut out = String::new();
    push_char(&mut out, '\u{1b}');
    push_char(&mut out, '\u{5b}');
    if bold {
        push_char(&mut out, '1');
        push_char(&mut out, ';');
    }
    let code = color_code_chars(color);
    push_chars(&mut out, &code);
    push_char(&mut out, 'm');
    out.append(s);
    push_char(&mut out, '\u{1b}');
    push_char(&mut out, '\u{5b}');
    push_char(&mut out, '0');
    push_char(&mut out, 'm');
    proof {
        assert(out@ =~= styled_wrap(s@, *color, bold));
    }
    out
}

/// The scanning state distributes over concatenation.
pub proof fn lemma_esc_state_concat(a: Seq<char>, b: Seq<char>, st: bool)
    ensures
        esc_state(a + b, st) == esc_state(b, esc_state(a, st)),
    decreases a.len(),
{
    if a.len() == 0 {
        assert(a + b =~= b);
    } else {
        assert((a + b).drop_first() =~= a.drop_first() + b);
        assert((a + b)[0] == a[0]);
        let st1 = if st {
            a[0] != 'm'
        } else {
            a[0] == '\u{1b}'
        };
        lemma_esc_state_concat(a.drop_first(), b, st1);
    }
}

/// Inside a styling sequence, everything through the closing `m` is dropped.
proof fn lemma_strip_in_esc(t: Seq<char>)
    requires
        forall|i: int| 0 <= i < t.len() ==> t[i] != 'm',
    ensures
        strip_ansi_from(t + seq!['m'], true) == Seq::<char>::empty(),
        esc_state(t + seq!['m'], true) == false,
    decreases t.len(),
{
    let w = t + seq!['m'];
    reveal_with_fuel(esc_state, 3);
    reveal_with_fuel(strip_ansi_from, 3);
    if t.len() == 0 {
        assert(w[0] == 'm');
        assert(w.drop_first() =~= Seq::<char>::empty());
    } else {
        assert(w[0] == t[0]);
        assert(w.drop_first() =~= t.drop_first() + seq!['m']);
        assert(forall|i: int|
            0 <= i < t.drop_first().len() ==> t.drop_first()[i] == t[i + 1]);
        lemma_strip_in_esc(t.drop_first());
    }
}

/// The code of every color is free of `m`.
proof fn lemma_color_code_no_m(c: ColorName)
    ensures
        forall|i: int| 0 <= i < color_code(c).len() ==> color_code(c)[i] != 'm',
{
}

/// A styled span strips back to its text and leaves the scanner outside any
/// styling sequence.
pub proof fn lemma_strip_styled(s: Seq<char>, c: ColorName, bold: bool)
    requires
        no_esc(s),
    ensures
        strip_ansi_from(styled_wrap(s, c, bold), false) == s,
        esc_state(styled_wrap(s, c, bold), false) == false,
{
    let open = style_open(c, bold);
    let mid = (if bold {
        seq!['1', ';']
    } else {
        Seq::<char>::empty()
    }) + color_code(c);
    let mid2 = seq!['\u{5b}'] + mid;
    lemma_color_code_no_m(c);
    assert(forall|i: int| 0 <= i < mid2.len() ==> mid2[i] != 'm');
    assert(open =~= seq!['\u{1b}'] + (mid2 + seq!['m']));
    assert(open[0] == '\u{1b}');
    assert(open.drop_first() =~= mid2 + seq!['m']);
    lemma_strip_in_esc(mid2);
    assert(strip_ansi_from(open, false) =~= Seq::<char>::empty());
    assert(esc_state(open, false) == esc_state(open.drop_first(), true)) by {
        lemma_esc_state_concat(seq!['\u{1b}'], open.drop_first(), false);
        assert(seq!['\u{1b}'] + open.drop_first() =~= open);
        assert(esc_state(seq!['\u{1b}'], false) == true) by {
            reveal_with_fuel(esc_state, 3);
        }
    }
    assert(esc_state(open, false) == false);
    let reset = style_reset();
    assert(reset =~= seq!['\u{1b}'] + (seq!['\u{5b}', '0'] + seq!['m']));
    lemma_strip_in_esc(seq!['\u{5b}', '0']);
    assert(strip_ansi_from(reset, false) == strip_ansi_from(reset.drop_first(), true)) by {
        assert(reset[0] == '\u{1b}');
    }
    assert(reset.drop_first() =~= seq!['\u{5b}', '0'] + seq!['m']);
    assert(strip_ansi_from(reset, false) =~= Seq::<char>::empty());
    assert(esc_state(reset, false) == false) by {
        lemma_esc_state_concat(seq!['\u{1b}'], reset.drop_first(), false);
        assert(seq!['\u{1b}'] + reset.drop_first() =~= reset);
    }
    let w = styled_wrap(s, c, bold);
    lemma_strip_concat(open, s + reset, false);
    assert(open + (s + reset) =~= w);
    lemma_strip_concat(s, reset, false);
    lemma_strip_clean(s);
    assert(strip_ansi_from(w, false) =~= s);
    lemma_esc_state_concat(open, s + reset, false);
    lemma_esc_state_concat(s, reset, false);
}

/// Symlink-aware file metadata, reduced to the plain values the renderers read.
#[derive(Clone, Copy)]
pub struct FileMeta {
    pub is_dir: bool,
    pub is_symlink: bool,
    pub is_block_device: bool,
    pub is_char_device: bool,
    pub mode: u32,
    pub nlink: u64,
    pub size: u64,
    pub blocks: u64,
}

/// One enumerated child of a directory, with everything a render line needs.
#[derive(Clone)]
pub struct Entry {
    pub name: String,
    pub meta: FileMeta,
    pub note: Option<String>,
    pub status_key: Option<String>,
    pub owner: String,
    pub group: String,
    pub date: String,
    pub size_human: String,
    pub link_target: Option<String>,
}

/// A directory subtree: an entry plus its children in enumeration order.
pub struct TreeNode {
    pub entry: Entry,
    pub children: Vec<TreeNode>,
}

/// Height of a subtree, for termination of the recursive walk.
pub open spec fn tree_height(node: TreeNode) -> nat
    decreases node,
{
    1 + forest_height(node.children@)
}

/// Height of a forest: the greatest height among its trees.
pub open spec fn forest_height(forest: Seq<TreeNode>) -> nat
    decreases forest,
{
    if forest.len() == 0 {
        0
    } else {
        let h0 = tree_height(forest[0]);
        let hr = forest_height(forest.drop_first());
        if h0 > hr {
            h0
        } else {
            hr
        }
    }
}

/// Whether a name is listed: hidden names (leading `.`) are skipped unless
/// all entries are shown.
pub open spec fn visible_name(name: Seq<char>, show_all: bool) -> bool {
    show_all || name.len() == 0 || name[0] != '.'
}

/// Order on sort keys: case-folded name first, enumeration position as the
/// tie-breaker, which keeps the enumeration order among equal names.
pub open spec fn key_le(a: (Seq<char>, int), b: (Seq<char>, int)) -> bool {
    if a.0 == b.0 {
        a.1 <= b.1
    } else {
        lex_le(a.0, b.0)
    }
}

/// A key inserted in front of the first entry it orders at or before.
pub open spec fn insert_key(x: (Seq<char>, int), s: Seq<(Seq<char>, int)>) -> Seq<
    (Seq<char>, int),
>
    decreases s.len(),
{
    if s.len() == 0 {
        seq![x]
    } else if key_le(x, s[0]) {
        seq![x] + s
    } else {
        seq![s[0]] + insert_key(x, s.drop_first())
    }
}

/// The keys sorted by insertion, in input order.
pub open spec fn sort_keys(s: Seq<(Seq<char>, int)>) -> Seq<(Seq<char>, int)>
    decreases s.len(),
{
    if s.len() == 0 {
        s
    } else {
        insert_key(s.last(), sort_keys(s.drop_last()))
    }
}

/// The sort keys of the visible names: each visible name case-folded,
/// paired with its position.
pub open spec fn visible_keys(names: Seq<Seq<char>>, show_all: bool) -> Seq<(Seq<char>, int)>
    decreases names.len(),
{
    if names.len() == 0 {
        Seq::empty()
    } else {
        visible_keys(names.drop_last(), show_all) + (if visible_name(names.last(), show_all) {
            seq![(lower_of(names.last()), names.len() - 1)]
        } else {
            Seq::empty()
        })
    }
}

/// The positions of the visible names, ordered case-insensitively with ties
/// kept in enumeration order.
pub open spec fn order_of(names: Seq<Seq<char>>, show_all: bool) -> Seq<int> {
    sort_keys(visible_keys(names, show_all)).map_values(|p: (Seq<char>, int)| p.1)
}

/// Insertion only adds the new key to the entries.
proof fn lemma_insert_key_elems(x: (Seq<char>, int), s: Seq<(Seq<char>, int)>)
    ensures
        insert_key(x, s).len() == s.len() + 1,
        forall|e: (Seq<char>, int)|
            insert_key(x, s).contains(e) ==> e == x || s.contains(e),
    decreases s.len(),
{
    if s.len() == 0 {
    } else if key_le(x, s[0]) {
    } else {
        lemma_insert_key_elems(x, s.drop_first());
        assert forall|e: (Seq<char>, int)| insert_key(x, s).contains(e) implies e == x
            || s.contains(e) by {
            let r = insert_key(x, s);
            let i = choose|i: int| 0 <= i < r.len() && r[i] == e;
            if i == 0 {
                assert(s[0] == e);
            } else {
                assert(insert_key(x, s.drop_first())[i - 1] == e);
                assert(insert_key(x, s.drop_first()).contains(e));
                if s.drop_first().contains(e) {
                    let j = choose|j: int|
                        0 <= j < s.drop_first().len() && s.drop_first()[j] == e;
                    assert(s[j + 1] == e);
                }
            }
        }
    }
}

/// Sorting only rearranges entries.
proof fn lemma_sort_keys_elems(s: Seq<(Seq<char>, int)>)
    ensures
        sort_keys(s).len() == s.len(),
        forall|e: (Seq<char>, int)| sort_keys(s).contains(e) ==> s.contains(e),
    decreases s.len(),
{
    if s.len() > 0 {
        lemma_sort_keys_elems(s.drop_last());
        lemma_insert_key_elems(s.last(), sort_keys(s.drop_last()));
        assert forall|e: (Seq<char>, int)| sort_keys(s).contains(e) implies s.contains(e) by {
            if e == s.last() {
                assert(s[s.len() - 1] == e);
            } else {
                assert(sort_keys(s.drop_last()).contains(e));
                assert(s.drop_last().contains(e));
                let j = choose|j: int| 0 <= j < s.drop_last().len() && s.drop_last()[j] == e;
                assert(s[j] == e);
            }
        }
    }
}

/// Every visible key's position lies within the name list.
proof fn lemma_visible_keys_bounds(names: Seq<Seq<char>>, show_all: bool)
    ensures
        forall|e: (Seq<char>, int)|
            visible_keys(names, show_all).contains(e) ==> 0 <= e.1 < names.len(),
    decreases names.len(),
{
    if names.len() > 0 {
        lemma_visible_keys_bounds(names.drop_last(), show_all);
        assert forall|e: (Seq<char>, int)|
            visible_keys(names, show_all).contains(e) implies 0 <= e.1 < names.len() by {
            let vk = visible_keys(names, show_all);
            let pre = visible_keys(names.drop_last(), show_all);
            let i = choose|i: int| 0 <= i < vk.len() && vk[i] == e;
            if i < pre.len() {
                assert(pre[i] == e);
                assert(pre.contains(e));
            }
        }
    }
}

/// Every position in the visible order lies within the name list.
pub proof fn lemma_order_bounds(names: Seq<Seq<char>>, show_all: bool)
    ensures
        forall|k: int|
            0 <= k < order_of(names, show_all).len() ==> 0 <= #[trigger] order_of(
                names,
                show_all,
            )[k] < names.len(),
{
    lemma_visible_keys_bounds(names, show_all);
    lemma_sort_keys_elems(visible_keys(names, show_all));
    assert forall|k: int|
        0 <= k < order_of(names, show_all).len() implies 0 <= #[trigger] order_of(
        names,
        show_all,
    )[k] < names.len() by {
        let sorted = sort_keys(visible_keys(names, show_all));
        assert(sorted.contains(sorted[k]));
        assert(visible_keys(names, show_all).contains(sorted[k]));
        assert(order_of(names, show_all)[k] == sorted[k].1);
    }
}

/// The pairs of character-vector keys and positions, as spec values.
pub open spec fn keys_view(s: Seq<(Vec<char>, usize)>) -> Seq<(Seq<char>, int)> {
    s.map_values(|p: (Vec<char>, usize)| (p.0@, p.1 as int))
}

/// Whether sort key `a` orders at or before `b`.
fn key_le_exec(a: &(Vec<char>, usize), b: &(Vec<char>, usize)) -> (r: bool)
    ensures
        r == key_le((a.0@, a.1 as int), (b.0@, b.1 as int)),
{
    if chars_eq(&a.0, &b.0) {
        a.1 <= b.1
    } else {
        chars_le(&a.0, &b.0)
    }
}

/// Inserting before the first entry the key orders at or before realizes
/// `insert_key`.
proof fn lemma_insert_key_at(x: (Seq<char>, int), s: Seq<(Seq<char>, int)>, j: int)
    requires
        0 <= j <= s.len(),
        forall|k: int| 0 <= k < j ==> !key_le(x, s[k]),
        j < s.len() ==> key_le(x, s[j]),
    ensures
        insert_key(x, s) == s.take(j) + seq![x] + s.skip(j),
    decreases j,
{
    if j == 0 {
        if s.len() == 0 {
            assert(insert_key(x, s) =~= s.take(0) + seq![x] + s.skip(0));
        } else {
            assert(insert_key(x, s) =~= s.take(0) + seq![x] + s.skip(0));
        }
    } else {
        assert(forall|k: int|
            0 <= k < j - 1 ==> s.drop_first()[k] == s[k + 1]);
        if j - 1 < s.drop_first().len() {
            assert(s.drop_first()[j - 1] == s[j]);
        }
        lemma_insert_key_at(x, s.drop_first(), j - 1);
        assert(seq![s[0]] + (s.drop_first().take(j - 1) + seq![x] + s.drop_first().skip(j - 1))
            =~= s.take(j) + seq![x] + s.skip(j));
    }
}

/// Insert a key into a vector sorted by `key_le`.
pub(crate) fn insert_sorted(v: &mut Vec<(Vec<char>, usize)>, x: (Vec<char>, usize))
    ensures
        keys_view(final(v)@) == insert_key((x.0@, x.1 as int), keys_view(old(v)@)),
{
    let mut j: usize = 0;
    while j < v.len() && !key_le_exec(&x, &v[j])
        invariant
            j <= v@.len(),
            v@ == old(v)@,
            forall|k: int|
                0 <= k < j ==> !key_le((x.0@, x.1 as int), keys_view(v@)[k]),
        decreases v@.len() - j,
    {
        proof {
            assert(keys_view(v@)[j as int] == (v@[j as int].0@, v@[j as int].1 as int));
        }
        j = j + 1;
    }
    proof {
        if j < v@.len() {
            assert(keys_view(v@)[j as int] == (v@[j as int].0@, v@[j as int].1 as int));
        }
        lemma_insert_key_at((x.0@, x.1 as int), keys_view(old(v)@), j as int);
    }
    v.insert(j, x);
    proof {
        assert(keys_view(v@) =~= keys_view(old(v)@).take(j as int) + seq![(x.0@, x.1 as int)]
            + keys_view(old(v)@).skip(j as int));
    }
}

/// The positions of the visible names, ordered case-insensitively with ties
/// kept in enumeration order.
pub fn sort_order(names: &Vec<String>, show_all: bool) -> (ord: Vec<usize>)
    ensures
        ord@.map_values(|u: usize| u as int) == order_of(names.deep_view(), show_all),
        forall|k: int| 0 <= k < ord@.len() ==> (ord@[k] as int) < names@.len(),
{
    let ghost dv = names.deep_view();
    let mut keys: Vec<(Vec<char>, usize)> = Vec::new();
    let mut i: usize = 0;
    proof {
        assert(dv.take(0) =~= Seq::<Seq<char>>::empty());
        assert(keys_view(keys@) =~= visible_keys(dv.take(0), show_all));
    }
    while i < names.len()
        invariant
            i <= names@.len(),
            dv == names.deep_view(),
            dv.len() == names@.len(),
            forall|k: int| 0 <= k < dv.len() ==> dv[k] == names@[k]@,
            keys_view(keys@) == visible_keys(dv.take(i as int), show_all),
        decreases names@.len() - i,
    {
        let name = &names[i];
        let visible = if show_all {
            true
        } else if name.as_str().is_empty() {
            true
        } else {
            name.as_str().get_char(0) != '.'
        };
        proof {
            assert(dv.take(i + 1).drop_last() =~= dv.take(i as int));
            assert(dv.take(i + 1).last() == dv[i as int]);
        }
        if visible {
            let low = to_lowercase(name.as_str());
            let key = chars_of(low.as_str());
            keys.push((key, i));
            proof {
                assert(keys_view(keys@) =~= visible_keys(dv.take(i as int), show_all) + seq![
                    (lower_of(dv[i as int]), i as int),
                ]);
            }
        } else {
            proof {
                assert(visible_keys(dv.take(i + 1), show_all) =~= visible_keys(
                    dv.take(i as int),
                    show_all,
                ));
            }
        }
        i = i + 1;
    }
    proof {
        assert(dv.take(dv.len() as int) =~= dv);
    }
    let ghost vk = visible_keys(dv, show_all);
    let mut sorted: Vec<(Vec<char>, usize)> = Vec::new();
    let ghost t0 = keys@.len() as int;
    let mut t: usize = 0;
    proof {
        assert(vk.take(0) =~= Seq::<(Seq<char>, int)>::empty());
        assert(keys_view(keys@).skip(0) =~= keys_view(keys@));
        assert(keys_view(keys@).len() == keys@.len());
        assert(vk.len() == keys@.len());
    }
    let kn = keys.len();
    proof {
        assert(vk.len() == kn);
    }
    let ghost all_keys = keys_view(keys@);
    while keys.len() > 0
        invariant
            t <= vk.len(),
            vk.len() <= usize::MAX,
            all_keys == vk,
            keys_view(keys@) == vk.skip(t as int),
            keys_view(sorted@) == sort_keys(vk.take(t as int)),
            t + keys@.len() == vk.len(),
        decreases keys@.len(),
    {
        let x = keys.remove(0);
        proof {
            assert(keys_view(keys@) =~= vk.skip(t as int).drop_first());
            assert(vk.skip(t as int).drop_first() =~= vk.skip(t + 1));
            assert((x.0@, x.1 as int) == vk.skip(t as int)[0]);
            assert(vk.skip(t as int)[0] == vk[t as int]);
        }
        insert_sorted(&mut sorted, x);
        proof {
            assert(vk.take(t + 1).drop_last() =~= vk.take(t as int));
            assert(vk.take(t + 1).last() == vk[t as int]);
        }
        t = t + 1;
    }
    proof {
        assert(vk.take(t as int) =~= vk);
        assert(keys_view(sorted@) == sort_keys(vk));
    }
    let mut ord: Vec<usize> = Vec::new();
    let mut j: usize = 0;
    proof {
        lemma_order_bounds(dv, show_all);
    }
    while j < sorted.len()
        invariant
            j <= sorted@.len(),
            keys_view(sorted@) == sort_keys(visible_keys(dv, show_all)),
            dv == names.deep_view(),
            ord@.len() == j,
            forall|k: int|
                0 <= k < j ==> (ord@[k] as int) == order_of(dv, show_all)[k],
            forall|k: int| 0 <= k < j ==> (ord@[k] as int) < names@.len(),
        decreases sorted@.len() - j,
    {
        let idx = sorted[j].1;
        proof {
            let jj = j as int;
            assert(keys_view(sorted@)[jj] == (sorted@[jj].0@, sorted@[jj].1 as int));
            assert(order_of(dv, show_all)[j as int] == keys_view(sorted@)[j as int].1);
            lemma_order_bounds(dv, show_all);
            assert(dv.len() == names@.len());
        }
        ord.push(idx);
        j = j + 1;
    }
    proof {
        assert(ord@.map_values(|u: usize| u as int) =~= order_of(dv, show_all));
    }
    ord
}

/// Get sorted directory entries: the visible names, ordered
/// case-insensitively, ties kept in enumeration order.
pub fn get_sorted_entries(names: &Vec<String>, show_all: bool) -> (r: Vec<String>)
    ensures
        r@.len() == order_of(names.deep_view(), show_all).len(),
        forall|k: int|
            0 <= k < r@.len() ==> r@[k]@ == names.deep_view()[order_of(
                names.deep_view(),
                show_all,
            )[k]],
{
    let ord = sort_order(names, show_all);
    let mut r: Vec<String> = Vec::new();
    let mut k: usize = 0;
    while k < ord.len()
        invariant
            k <= ord@.len(),
            ord@.map_values(|u: usize| u as int) == order_of(names.deep_view(), show_all),
            forall|j: int| 0 <= j < ord@.len() ==> (ord@[j] as int) < names@.len(),
            r@.len() == k,
            forall|j: int|
                0 <= j < k ==> r@[j]@ == names.deep_view()[order_of(
                    names.deep_view(),
                    show_all,
                )[j]],
        decreases ord@.len() - k,
    {
        let idx = ord[k];
        r.push(names[idx].clone());
        proof {
            assert(order_of(names.deep_view(), show_all)[k as int] == (ord@[k as int] as int));
            assert(names.deep_view()[ord@[k as int] as int] == names@[ord@[k as int] as int]@);
        }
        k = k + 1;
    }
    r
}

/// Text that can stand in a render line: free of escape bytes and newlines.
pub open spec fn text_ok(s: Seq<char>) -> bool {
    no_esc(s) && no_nl(s)
}

/// An optional string whose text, if present, can stand in a render line.
pub open spec fn opt_text_ok(s: Option<String>) -> bool {
    match s {
        Some(v) => text_ok(v@),
        None => true,
    }
}

/// An entry whose texts can stand in render lines.
pub open spec fn entry_wf(e: Entry) -> bool {
    text_ok(e.name@) && opt_text_ok(e.note) && text_ok(e.owner@) && text_ok(e.group@) && text_ok(
        e.date@,
    ) && text_ok(e.size_human@) && opt_text_ok(e.link_target)
}

/// An association list whose values can stand in render lines.
pub open spec fn pairs_ok(s: Seq<(Seq<char>, Seq<char>)>) -> bool {
    forall|i: int| 0 <= i < s.len() ==> text_ok(#[trigger] s[i].1)
}

/// A configuration whose icons and glyphs can stand in render lines.
pub open spec fn config_wf(c: ConfigV) -> bool {
    text_ok(c.icons.directory) && text_ok(c.icons.symlink) && text_ok(c.icons.file) && text_ok(
        c.icons.executable,
    ) && pairs_ok(c.icons.extensions) && pairs_ok(c.icons.filenames) && text_ok(c.git.modified)
        && text_ok(c.git.staged) && text_ok(c.git.untracked) && text_ok(c.git.ignored)
}

/// A subtree whose entries' texts can all stand in render lines.
pub open spec fn tree_wf(node: TreeNode) -> bool
    decreases node,
{
    entry_wf(node.entry) && forest_wf(node.children@)
}

/// A forest whose entries' texts can all stand in render lines.
pub open spec fn forest_wf(forest: Seq<TreeNode>) -> bool
    decreases forest,
{
    if forest.len() == 0 {
        true
    } else {
        tree_wf(forest[0]) && forest_wf(forest.drop_first())
    }
}

/// Each tree of a well-formed forest is well formed.
pub proof fn lemma_forest_wf(forest: Seq<TreeNode>, i: int)
    requires
        forest_wf(forest),
        0 <= i < forest.len(),
    ensures
        tree_wf(forest[i]),
    decreases forest.len(),
{
    if i > 0 {
        lemma_forest_wf(forest.drop_first(), i - 1);
        assert(forest.drop_first()[i - 1] == forest[i]);
    }
}

/// A value found in a well-formed association list can stand in a line.
proof fn lemma_str_assoc_ok(s: Seq<(Seq<char>, Seq<char>)>, k: Seq<char>)
    requires
        pairs_ok(s),
        str_assoc(s, k) is Some,
    ensures
        text_ok(str_assoc(s, k).unwrap()),
    decreases s.len(),
{
    if s.len() > 0 && s[0].0 != k {
        assert(forall|i: int|
            0 <= i < s.drop_first().len() ==> s.drop_first()[i] == s[i + 1]);
        lemma_str_assoc_ok(s.drop_first(), k);
    }
}

/// An icon drawn from a well-formed configuration can stand in a line.
pub proof fn lemma_icon_ok(name: Seq<char>, meta: FileMeta, c: ConfigV)
    requires
        config_wf(c),
    ensures
        text_ok(spec_icon(name, meta, c.icons)),
{
    let ic = c.icons;
    if !meta.is_dir && !meta.is_symlink {
        if str_assoc(ic.filenames, crate::text::lower_of(name)) is Some {
            lemma_str_assoc_ok(ic.filenames, crate::text::lower_of(name));
        } else if crate::icons::ext_of(name) is Some && str_assoc(
            ic.extensions,
            crate::text::lower_of(crate::icons::ext_of(name).unwrap()),
        ) is Some {
            lemma_str_assoc_ok(
                ic.extensions,
                crate::text::lower_of(crate::icons::ext_of(name).unwrap()),
            );
        }
    }
}

/// Appending to text whose scan ends outside a styling sequence strips
/// piecewise.
pub proof fn lemma_strip_append(a: Seq<char>, b: Seq<char>)
    requires
        esc_state(a, false) == false,
    ensures
        strip_ansi(a + b) == strip_ansi(a) + strip_ansi(b),
        esc_state(a + b, false) == esc_state(b, false),
{
    lemma_strip_concat(a, b, false);
    lemma_esc_state_concat(a, b, false);
}

/// The status a rendered entry carries: its key looked up in the status
/// map, and nothing when status decoration is off.
pub open spec fn entry_status(
    e: Entry,
    m: Map<Seq<char>, GitStatus>,
    show_git: bool,
) -> Option<GitStatus> {
    if !show_git {
        None
    } else {
        match e.status_key {
            Some(k) => spec_get(m, k@),
            None => None,
        }
    }
}

/// The plain glyph of a status: the configured mark, a space for a clean or
/// unknown entry.
pub open spec fn glyph_plain(st: Option<GitStatus>, g: GitV) -> Seq<char> {
    match st {
        Some(GitStatus::Modified) => g.modified,
        Some(GitStatus::Staged) => g.staged,
        Some(GitStatus::Untracked) => g.untracked,
        Some(GitStatus::Ignored) => g.ignored,
        _ => " "@,
    }
}

/// The styled glyph of a status: the configured mark wrapped in its
/// configured color, the ignored mark dimmed, a bare space for a clean or
/// unknown entry.
pub open spec fn glyph_styled(st: Option<GitStatus>, g: GitV, colors: ColorsV) -> Seq<char> {
    match st {
        Some(GitStatus::Modified) => styled_wrap(
            g.modified,
            spec_parse_color(lower_of(colors.git_modified)),
            false,
        ),
        Some(GitStatus::Staged) => styled_wrap(
            g.staged,
            spec_parse_color(lower_of(colors.git_staged)),
            false,
        ),
        Some(GitStatus::Untracked) => styled_wrap(
            g.untracked,
            spec_parse_color(lower_of(colors.git_untracked)),
            false,
        ),
        Some(GitStatus::Ignored) => styled_wrap(g.ignored, ColorName::BrightBlack, false),
        _ => " "@,
    }
}

/// Format a git status as a one-glyph marker.  Styled, the modified, staged
/// and untracked marks take their configured colors and the ignored mark is
/// dimmed; clean or unknown entries show an unstyled space either way.
pub fn format_git_status(
    status: Option<&GitStatus>,
    git: &GitConfig,
    colors: &ColorsConfig,
    styled: bool,
) -> (r: String)
    requires
        text_ok(git@.modified),
        text_ok(git@.staged),
        text_ok(git@.untracked),
        text_ok(git@.ignored),
    ensures
        strip_ansi(r@) == glyph_plain(spec_status_deref(status), git@),
        esc_state(r@, false) == false,
        !styled ==> r@ == glyph_plain(spec_status_deref(status), git@),
        styled ==> r@ == glyph_styled(spec_status_deref(status), git@, colors@),
{
    let ghost g = glyph_plain(spec_status_deref(status), git@);
    let r: String = match status {
        Some(GitStatus::Modified) => {
            if styled {
                let c = parse_color(colors.git_modified.as_str());
                let p = paint(git.modified.as_str(), &c, false);
                proof {
                    lemma_strip_styled(git@.modified, c, false);
                }
                p
            } else {
                git.modified.clone()
            }
        },
        Some(GitStatus::Staged) => {
            if styled {
                let c = parse_color(colors.git_staged.as_str());
                let p = paint(git.staged.as_str(), &c, false);
                proof {
                    lemma_strip_styled(git@.staged, c, false);
                }
                p
            } else {
                git.staged.clone()
            }
        },
        Some(GitStatus::Untracked) => {
            if styled {
                let c = parse_color(colors.git_untracked.as_str());
                let p = paint(git.untracked.as_str(), &c, false);
                proof {
                    lemma_strip_styled(git@.untracked, c, false);
                }
                p
            } else {
                git.untracked.clone()
            }
        },
        Some(GitStatus::Ignored) => {
            if styled {
                let c = ColorName::BrightBlack;
                let p = paint(git.ignored.as_str(), &c, false);
                proof {
                    lemma_strip_styled(git@.ignored, c, false);
                }
                p
            } else {
                git.ignored.clone()
            }
        },
        _ => String::from_str(" "),
    };
    proof {
        if !styled || status is None || spec_status_deref(status) == Some(GitStatus::Clean) {
            assert(no_esc(r@)) by {
                reveal_strlit(" ");
            }
            lemma_strip_clean(r@);
        }
    }
    r
}

/// The status behind an optional reference.
pub open spec fn spec_status_deref(status: Option<&GitStatus>) -> Option<GitStatus> {
    match status {
        Some(s) => Some(*s),
        None => None,
    }
}

/// The color and weight of an entry's name: the status color when one of
/// the three active statuses decorates it (bold for directories), else the
/// color of its file type (directories and executables bold).
pub open spec fn choose_style(meta: FileMeta, st: Option<GitStatus>, colors: ColorsV) -> (
    ColorName,
    bool,
) {
    match st {
        Some(GitStatus::Modified) => (
            spec_parse_color(lower_of(colors.git_modified)),
            meta.is_dir,
        ),
        Some(GitStatus::Staged) => (spec_parse_color(lower_of(colors.git_staged)), meta.is_dir),
        Some(GitStatus::Untracked) => (
            spec_parse_color(lower_of(colors.git_untracked)),
            meta.is_dir,
        ),
        _ => {
            if meta.is_dir {
                (spec_parse_color(lower_of(colors.directory)), true)
            } else if meta.is_symlink {
                (spec_parse_color(lower_of(colors.symlink)), false)
            } else if meta.mode & 0o111 != 0 {
                (spec_parse_color(lower_of(colors.executable)), true)
            } else {
                (spec_parse_color(lower_of(colors.file)), false)
            }
        },
    }
}

/// Colorize a file name based on its type and git status.
pub fn colorize_name(
    name: &str,
    meta: &FileMeta,
    status: Option<&GitStatus>,
    colors: &ColorsConfig,
) -> (r: String)
    ensures
        r@ == styled_wrap(
            name@,
            choose_style(*meta, spec_status_deref(status), colors@).0,
            choose_style(*meta, spec_status_deref(status), colors@).1,
        ),
{
    match status {
        Some(GitStatus::Modified) => {
            let c = parse_color(colors.git_modified.as_str());
            paint(name, &c, meta.is_dir)
        },
        Some(GitStatus::Staged) => {
            let c = parse_color(colors.git_staged.as_str());
            paint(name, &c, meta.is_dir)
        },
        Some(GitStatus::Untracked) => {
            let c = parse_color(colors.git_untracked.as_str());
            paint(name, &c, meta.is_dir)
        },
        _ => {
            if meta.is_dir {
                let c = parse_color(colors.directory.as_str());
                paint(name, &c, true)
            } else if meta.is_symlink {
                let c = parse_color(colors.symlink.as_str());
                paint(name, &c, false)
            } else if crate::icons::is_executable(meta) {
                let c = parse_color(colors.executable.as_str());
                paint(name, &c, true)
            } else {
                let c = parse_color(colors.file.as_str());
                paint(name, &c, false)
            }
        },
    }
}

/// The literal fragments of render lines hold no escape byte or newline.
proof fn lemma_lit_ok()
    ensures
        text_ok(" "@),
        text_ok("  "@),
        text_ok("# "@),
        text_ok("  # "@),
        text_ok(" -> "@),
        text_ok("total "@),
        text_ok("Error reading directory: "@),
        text_ok("└── "@),
        text_ok("├── "@),
        text_ok("    "@),
        text_ok("│   "@),
{
    reveal_strlit(" ");
    reveal_strlit("  ");
    reveal_strlit("# ");
    reveal_strlit("  # ");
    reveal_strlit(" -> ");
    reveal_strlit("total ");
    reveal_strlit("Error reading directory: ");
    reveal_strlit("└── ");
    reveal_strlit("├── ");
    reveal_strlit("    ");
    reveal_strlit("│   ");
}

/// One permission triplet, as `rwx` characters.
pub open spec fn triplet_spec(mode: u32) -> Seq<char> {
    seq![
        if mode & 0o4 != 0 {
            'r'
        } else {
            '-'
        },
        if mode & 0o2 != 0 {
            'w'
        } else {
            '-'
        },
        if mode & 0o1 != 0 {
            'x'
        } else {
            '-'
        },
    ]
}

/// Format a permission triplet (rwx).
pub fn triplet(mode: u32) -> (r: String)
    ensures
        r@ == triplet_spec(mode),
{
    let mut out = String::new();
    push_char(
        &mut out,
        if mode & 0o4 != 0 {
            'r'
        } else {
            '-'
        },
    );
    push_char(
        &mut out,
        if mode & 0o2 != 0 {
            'w'
        } else {
            '-'
        },
    );
    push_char(
        &mut out,
        if mode & 0o1 != 0 {
            'x'
        } else {
            '-'
        },
    );
    proof {
        assert(out@ =~= triplet_spec(mode));
    }
    out
}

/// The file-type character of the permission column.
pub open spec fn filetype_char(meta: FileMeta) -> char {
    if meta.is_symlink {
        'l'
    } else if meta.is_dir {
        'd'
    } else if meta.is_block_device {
        'b'
    } else if meta.is_char_device {
        'c'
    } else {
        '-'
    }
}

/// The ten-character permission column.
pub open spec fn perm_string(meta: FileMeta) -> Seq<char> {
    seq![filetype_char(meta)] + triplet_spec((meta.mode >> 6) & 0o7) + triplet_spec(
        (meta.mode >> 3) & 0o7,
    ) + triplet_spec(meta.mode & 0o7)
}

/// Format file permissions as a string (e.g., "drwxr-xr-x").
pub fn format_permissions(meta: &FileMeta) -> (r: String)
    ensures
        r@ == perm_string(*meta),
{
    let mut out = String::new();
    let ft: char = if meta.is_symlink {
        'l'
    } else if meta.is_dir {
        'd'
    } else if meta.is_block_device {
        'b'
    } else if meta.is_char_device {
        'c'
    } else {
        '-'
    };
    push_char(&mut out, ft);
    let user = triplet((meta.mode >> 6) & 0o7);
    let group = triplet((meta.mode >> 3) & 0o7);
    let other = triplet(meta.mode & 0o7);
    out.append(user.as_str());
    out.append(group.as_str());
    out.append(other.as_str());
    proof {
        assert(out@ =~= perm_string(*meta));
    }
    out
}

/// The status column of a line, a glyph and a space, when it is shown.
pub open spec fn git_part_plain(st: Option<GitStatus>, g: GitV, show_git: bool) -> Seq<char> {
    if show_git {
        glyph_plain(st, g) + " "@
    } else {
        Seq::empty()
    }
}

/// The icon column of a line, an icon and a space, when it is shown.
pub open spec fn icon_part(name: Seq<char>, meta: FileMeta, ic: IconsV, show_icons: bool) -> Seq<
    char,
> {
    if show_icons {
        spec_icon(name, meta, ic) + " "@
    } else {
        Seq::empty()
    }
}

/// The trailing note comment of a line, when the entry carries a note.
pub open spec fn note_plain(note: Option<String>) -> Seq<char> {
    match note {
        Some(n) => "  # "@ + n@,
        None => Seq::empty(),
    }
}

/// The symlink target suffix of a long-format line.
pub open spec fn link_part(t: Option<String>) -> Seq<char> {
    match t {
        Some(s) => " -> "@ + s@,
        None => Seq::empty(),
    }
}

/// The size column: the pre-formatted human-readable size right-padded to
/// six characters, or the byte count right-padded to eight.
pub open spec fn size_field(e: Entry, human: bool) -> Seq<char> {
    if human {
        pad_left_spec(e.size_human@, 6)
    } else {
        pad_left_spec(dec_digits(e.meta.size as nat), 8)
    }
}

/// A short-format line: status glyph, icon, name and note.
pub open spec fn core_line_plain(
    e: Entry,
    st: Option<GitStatus>,
    c: ConfigV,
    opts: DisplayOptions,
) -> Seq<char> {
    git_part_plain(st, c.git, opts.show_git) + icon_part(
        e.name@,
        e.meta,
        c.icons,
        opts.show_icons,
    ) + e.name@ + note_plain(e.note) + "\n"@
}

/// A long-format line: permissions, link count, owner, group, size and date
/// columns ahead of the short-format fields, with the symlink target after
/// the name.
pub open spec fn long_line_plain(
    e: Entry,
    st: Option<GitStatus>,
    c: ConfigV,
    opts: DisplayOptions,
) -> Seq<char> {
    long_head_plain(e, opts.human_readable) + long_tail_plain(e, st, c, opts)
}

/// The fixed-width columns ahead of a long line's status field.
pub open spec fn long_head_plain(e: Entry, human: bool) -> Seq<char> {
    perm_string(e.meta) + " "@ + pad_left_spec(dec_digits(e.meta.nlink as nat), 2) + " "@
        + pad_right_spec(e.owner@, 8) + " "@ + pad_right_spec(e.group@, 8) + " "@ + size_field(
        e,
        human,
    ) + " "@ + e.date@ + " "@
}

/// The line of one entry, long or short as the options say.
pub open spec fn entry_line_plain(
    e: Entry,
    st: Option<GitStatus>,
    c: ConfigV,
    opts: DisplayOptions,
) -> Seq<char> {
    if opts.long_format {
        long_line_plain(e, st, c, opts)
    } else {
        core_line_plain(e, st, c, opts)
    }
}

/// The styled trailing note comment: the comment text dimmed.
pub open spec fn note_styled(note: Option<String>) -> Seq<char> {
    match note {
        Some(n) => "  "@ + styled_wrap("# "@ + n@, ColorName::BrightBlack, false),
        None => Seq::empty(),
    }
}

/// The styled status column of a line.
pub open spec fn git_part_styled(
    st: Option<GitStatus>,
    g: GitV,
    colors: ColorsV,
    show_git: bool,
) -> Seq<char> {
    if show_git {
        glyph_styled(st, g, colors) + " "@
    } else {
        Seq::empty()
    }
}

/// The styled name of an entry: wrapped in the color and weight its status
/// and file type select.
pub open spec fn name_styled(e: Entry, st: Option<GitStatus>, colors: ColorsV) -> Seq<char> {
    styled_wrap(e.name@, choose_style(e.meta, st, colors).0, choose_style(e.meta, st, colors).1)
}

/// A styled short-format line.
pub open spec fn core_line_styled(
    e: Entry,
    st: Option<GitStatus>,
    c: ConfigV,
    opts: DisplayOptions,
) -> Seq<char> {
    git_part_styled(st, c.git, c.colors, opts.show_git) + icon_part(
        e.name@,
        e.meta,
        c.icons,
        opts.show_icons,
    ) + name_styled(e, st, c.colors) + note_styled(e.note) + "\n"@
}

/// The styled fields after a long line's date column.
pub open spec fn long_tail_styled(
    e: Entry,
    st: Option<GitStatus>,
    c: ConfigV,
    opts: DisplayOptions,
) -> Seq<char> {
    git_part_styled(st, c.git, c.colors, opts.show_git) + icon_part(
        e.name@,
        e.meta,
        c.icons,
        opts.show_icons,
    ) + name_styled(e, st, c.colors) + link_part(e.link_target) + note_styled(e.note) + "\n"@
}

/// A styled long-format line: the fixed-width columns are unstyled.
pub open spec fn long_line_styled(
    e: Entry,
    st: Option<GitStatus>,
    c: ConfigV,
    opts: DisplayOptions,
) -> Seq<char> {
    long_head_plain(e, opts.human_readable) + long_tail_styled(e, st, c, opts)
}

/// The styled line of one entry, long or short as the options say.
pub open spec fn entry_line_styled(
    e: Entry,
    st: Option<GitStatus>,
    c: ConfigV,
    opts: DisplayOptions,
) -> Seq<char> {
    if opts.long_format {
        long_line_styled(e, st, c, opts)
    } else {
        core_line_styled(e, st, c, opts)
    }
}

/// The trailing note comment, dimmed in styled output.
fn render_note(note: &Option<String>, styled: bool) -> (r: String)
    requires
        opt_text_ok(*note),
    ensures
        strip_ansi(r@) == note_plain(*note),
        esc_state(r@, false) == false,
        !styled ==> r@ == note_plain(*note),
        styled ==> r@ == note_styled(*note),
{
    proof {
        lemma_lit_ok();
    }
    match note {
        Some(n) => {
            if styled {
                let mut inner = String::from_str("# ");
                inner.append(n.as_str());
                let p = paint(inner.as_str(), &ColorName::BrightBlack, false);
                let mut out = String::from_str("  ");
                out.append(p.as_str());
                proof {
                    reveal_strlit("  ");
                    reveal_strlit("# ");
                    reveal_strlit("  # ");
                    assert(no_esc(inner@));
                    lemma_strip_styled(inner@, ColorName::BrightBlack, false);
                    lemma_strip_clean("  "@);
                    lemma_strip_append("  "@, p@);
                    assert(strip_ansi(out@) =~= note_plain(*note));
                }
                out
            } else {
                let mut out = String::from_str("  # ");
                out.append(n.as_str());
                proof {
                    assert(no_esc(out@));
                    lemma_strip_clean(out@);
                }
                out
            }
        },
        None => {
            let out = String::new();
            proof {
                lemma_strip_clean(out@);
            }
            out
        },
    }
}

/// Build a short-format line: status glyph, icon, name and note.
#[verifier::rlimit(100)]
#[verifier::spinoff_prover]
fn render_core_line(
    e: &Entry,
    st: Option<GitStatus>,
    cfg: &Config,
    opts: &DisplayOptions,
    styled: bool,
) -> (r: String)
    requires
        entry_wf(*e),
        config_wf(cfg@),
    ensures
        strip_ansi(r@) == core_line_plain(*e, st, cfg@, *opts),
        esc_state(r@, false) == false,
        !styled ==> r@ == core_line_plain(*e, st, cfg@, *opts),
        styled ==> r@ == core_line_styled(*e, st, cfg@, *opts),
{
    proof {
        lemma_lit_ok();
    }
    let mut out = String::new();
    let ghost pp1 = git_part_plain(st, cfg@.git, opts.show_git);
    let ghost sp1 = git_part_styled(st, cfg@.git, cfg@.colors, opts.show_git);
    if opts.show_git {
        let stref: Option<&GitStatus> = match &st {
            Some(v) => Some(v),
            None => None,
        };
        let g = format_git_status(stref, &cfg.git, &cfg.colors, styled);
        let ghost o0 = out@;
        out.append(g.as_str());
        out.append(" ");
        proof {
            assert(out@ =~= g@ + " "@);
            lemma_strip_clean(" "@);
            lemma_strip_append(g@, " "@);
            assert(strip_ansi(out@) =~= pp1);
            if !styled {
                assert(out@ =~= pp1);
            } else {
                assert(out@ =~= sp1);
            }
        }
    } else {
        proof {
            lemma_strip_clean(out@);
            assert(strip_ansi(out@) =~= pp1);
            assert(out@ =~= pp1);
            assert(out@ =~= sp1);
        }
    }
    let ghost pp2 = pp1 + icon_part(e.name@, e.meta, cfg@.icons, opts.show_icons);
    let ghost sp2 = sp1 + icon_part(e.name@, e.meta, cfg@.icons, opts.show_icons);
    if opts.show_icons {
        let ics = get_icon(e.name.as_str(), &e.meta, &cfg.icons);
        let ghost o1 = out@;
        out.append(ics.as_str());
        out.append(" ");
        proof {
            lemma_icon_ok(e.name@, e.meta, cfg@);
            lemma_strip_clean(ics@ + " "@);
            lemma_strip_append(o1, ics@ + " "@);
            assert(out@ =~= o1 + (ics@ + " "@));
            assert(strip_ansi(out@) =~= pp2);
            if !styled {
                assert(out@ =~= pp2);
            } else {
                assert(out@ =~= sp2);
            }
        }
    } else {
        proof {
            assert(strip_ansi(out@) =~= pp2);
            if !styled {
                assert(out@ =~= pp2);
            } else {
                assert(out@ =~= sp2);
            }
        }
    }
    let ghost pp3 = pp2 + e.name@;
    let ghost sp3 = sp2 + name_styled(*e, st, cfg@.colors);
    let ghost o2 = out@;
    if styled {
        let stref: Option<&GitStatus> = match &st {
            Some(v) => Some(v),
            None => None,
        };
        let nm = colorize_name(e.name.as_str(), &e.meta, stref, &cfg.colors);
        out.append(nm.as_str());
        proof {
            let style = choose_style(e.meta, st, cfg@.colors);
            lemma_strip_styled(e.name@, style.0, style.1);
            lemma_strip_append(o2, nm@);
            assert(strip_ansi(out@) =~= pp3);
            assert(out@ =~= sp3);
        }
    } else {
        out.append(e.name.as_str());
        proof {
            lemma_strip_clean(e.name@);
            lemma_strip_append(o2, e.name@);
            assert(strip_ansi(out@) =~= pp3);
            assert(out@ =~= pp3);
        }
    }
    let ghost pp4 = pp3 + note_plain(e.note);
    let ghost sp4 = sp3 + note_styled(e.note);
    let nt = render_note(&e.note, styled);
    let ghost o3 = out@;
    out.append(nt.as_str());
    proof {
        lemma_strip_append(o3, nt@);
        assert(strip_ansi(out@) =~= pp4);
        if !styled {
            assert(out@ =~= pp4);
        } else {
            assert(out@ =~= sp4);
        }
    }
    let ghost o4 = out@;
    out.append("\n");
    proof {
        reveal_strlit("\n");
        assert(no_esc("\n"@));
        lemma_strip_clean("\n"@);
        lemma_strip_append(o4, "\n"@);
        assert(strip_ansi(out@) =~= core_line_plain(*e, st, cfg@, *opts));
        if !styled {
            assert(out@ =~= core_line_plain(*e, st, cfg@, *opts));
        } else {
            assert(out@ =~= core_line_styled(*e, st, cfg@, *opts));
        }
    }
    out
}

/// Build the fixed-width columns ahead of a long line's status field.
#[verifier::rlimit(100)]
#[verifier::spinoff_prover]
fn render_long_head(e: &Entry, human: bool) -> (r: String)
    requires
        entry_wf(*e),
    ensures
        r@ == long_head_plain(*e, human),
        no_esc(r@),
{
    proof {
        lemma_lit_ok();
    }
    let mut head = format_permissions(&e.meta);
    head.append(" ");
    let ghost h1 = perm_string(e.meta) + " "@;
    proof {
        assert(head@ =~= h1);
    }
    let nlink_digits = u64_to_dec(e.meta.nlink);
    crate::text::push_pad_left(&mut head, &nlink_digits, 2);
    head.append(" ");
    let ghost h2 = h1 + pad_left_spec(dec_digits(e.meta.nlink as nat), 2) + " "@;
    proof {
        assert(head@ =~= h2);
    }
    let owner_chars = chars_of(e.owner.as_str());
    crate::text::push_pad_right(&mut head, &owner_chars, 8);
    head.append(" ");
    let ghost h3 = h2 + pad_right_spec(e.owner@, 8) + " "@;
    proof {
        assert(head@ =~= h3);
    }
    let group_chars = chars_of(e.group.as_str());
    crate::text::push_pad_right(&mut head, &group_chars, 8);
    head.append(" ");
    let ghost h4 = h3 + pad_right_spec(e.group@, 8) + " "@;
    proof {
        assert(head@ =~= h4);
    }
    if human {
        let size_chars = chars_of(e.size_human.as_str());
        crate::text::push_pad_left(&mut head, &size_chars, 6);
    } else {
        let size_digits = u64_to_dec(e.meta.size);
        crate::text::push_pad_left(&mut head, &size_digits, 8);
    }
    head.append(" ");
    let ghost h5 = h4 + size_field(*e, human) + " "@;
    proof {
        assert(head@ =~= h5);
    }
    head.append(e.date.as_str());
    head.append(" ");
    proof {
        assert(head@ =~= long_head_plain(*e, human));
        assert(no_esc(head@)) by {
            reveal_strlit(" ");
            crate::text::lemma_spaces_all((2 - dec_digits(e.meta.nlink as nat).len()) as nat);
            crate::text::lemma_spaces_all((8 - e.owner@.len()) as nat);
            crate::text::lemma_spaces_all((8 - e.group@.len()) as nat);
            crate::text::lemma_spaces_all((6 - e.size_human@.len()) as nat);
            crate::text::lemma_spaces_all((8 - dec_digits(e.meta.size as nat).len()) as nat);
            crate::text::lemma_dec_digits_all(e.meta.nlink as nat);
            crate::text::lemma_dec_digits_all(e.meta.size as nat);
        }
    }
    head
}

/// Build a long-format line: permission, link count, owner, group, size and
/// date columns, then the short-format fields and the symlink target.
fn render_long_line(
    e: &Entry,
    st: Option<GitStatus>,
    cfg: &Config,
    opts: &DisplayOptions,
    styled: bool,
) -> (r: String)
    requires
        entry_wf(*e),
        config_wf(cfg@),
    ensures
        strip_ansi(r@) == long_line_plain(*e, st, cfg@, *opts),
        esc_state(r@, false) == false,
        !styled ==> r@ == long_line_plain(*e, st, cfg@, *opts),
        styled ==> r@ == long_line_styled(*e, st, cfg@, *opts),
{
    let mut head = render_long_head(e, opts.human_readable);
    proof {
        lemma_strip_clean(head@);
    }
    let ghost o0 = head@;
    let tail = render_long_tail(e, st, cfg, opts, styled);
    head.append(tail.as_str());
    proof {
        lemma_strip_append(o0, tail@);
        assert(strip_ansi(head@) =~= long_line_plain(*e, st, cfg@, *opts));
        if !styled {
            assert(head@ =~= long_line_plain(*e, st, cfg@, *opts));
        } else {
            assert(head@ =~= long_line_styled(*e, st, cfg@, *opts));
        }
    }
    head
}

/// The plain form of the fields after a long line's date column.
pub open spec fn long_tail_plain(
    e: Entry,
    st: Option<GitStatus>,
    c: ConfigV,
    opts: DisplayOptions,
) -> Seq<char> {
    git_part_plain(st, c.git, opts.show_git) + icon_part(
        e.name@,
        e.meta,
        c.icons,
        opts.show_icons,
    ) + e.name@ + link_part(e.link_target) + note_plain(e.note) + "\n"@
}

/// Build the fields after a long line's date column: status glyph, icon,
/// name, symlink target and note.
#[verifier::rlimit(100)]
#[verifier::spinoff_prover]
fn render_long_tail(
    e: &Entry,
    st: Option<GitStatus>,
    cfg: &Config,
    opts: &DisplayOptions,
    styled: bool,
) -> (r: String)
    requires
        entry_wf(*e),
        config_wf(cfg@),
    ensures
        strip_ansi(r@) == long_tail_plain(*e, st, cfg@, *opts),
        esc_state(r@, false) == false,
        !styled ==> r@ == long_tail_plain(*e, st, cfg@, *opts),
        styled ==> r@ == long_tail_styled(*e, st, cfg@, *opts),
{
    proof {
        lemma_lit_ok();
    }
    let mut out = String::new();
    let ghost pp1 = git_part_plain(st, cfg@.git, opts.show_git);
    let ghost sp1 = git_part_styled(st, cfg@.git, cfg@.colors, opts.show_git);
    if opts.show_git {
        let stref: Option<&GitStatus> = match &st {
            Some(v) => Some(v),
            None => None,
        };
        let g = format_git_status(stref, &cfg.git, &cfg.colors, styled);
        out.append(g.as_str());
        out.append(" ");
        proof {
            assert(out@ =~= g@ + " "@);
            lemma_strip_clean(" "@);
            lemma_strip_append(g@, " "@);
            assert(strip_ansi(out@) =~= pp1);
            if !styled {
                assert(out@ =~= pp1);
            } else {
                assert(out@ =~= sp1);
            }
        }
    } else {
        proof {
            lemma_strip_clean(out@);
            assert(strip_ansi(out@) =~= pp1);
            assert(out@ =~= pp1);
            assert(out@ =~= sp1);
        }
    }
    let ghost pp2 = pp1 + icon_part(e.name@, e.meta, cfg@.icons, opts.show_icons);
    let ghost sp2 = sp1 + icon_part(e.name@, e.meta, cfg@.icons, opts.show_icons);
    if opts.show_icons {
        let ics = get_icon(e.name.as_str(), &e.meta, &cfg.icons);
        let ghost o1 = out@;
        out.append(ics.as_str());
        out.append(" ");
        proof {
            lemma_icon_ok(e.name@, e.meta, cfg@);
            lemma_strip_clean(ics@ + " "@);
            lemma_strip_append(o1, ics@ + " "@);
            assert(out@ =~= o1 + (ics@ + " "@));
            assert(strip_ansi(out@) =~= pp2);
            if !styled {
                assert(out@ =~= pp2);
            } else {
                assert(out@ =~= sp2);
            }
        }
    } else {
        proof {
            assert(strip_ansi(out@) =~= pp2);
            if !styled {
                assert(out@ =~= pp2);
            } else {
                assert(out@ =~= sp2);
            }
        }
    }
    let ghost pp3 = pp2 + e.name@;
    let ghost sp3 = sp2 + name_styled(*e, st, cfg@.colors);
    let ghost o2 = out@;
    if styled {
        let stref: Option<&GitStatus> = match &st {
            Some(v) => Some(v),
            None => None,
        };
        let nm = colorize_name(e.name.as_str(), &e.meta, stref, &cfg.colors);
        out.append(nm.as_str());
        proof {
            let style = choose_style(e.meta, st, cfg@.colors);
            lemma_strip_styled(e.name@, style.0, style.1);
            lemma_strip_append(o2, nm@);
            assert(strip_ansi(out@) =~= pp3);
            assert(out@ =~= sp3);
        }
    } else {
        out.append(e.name.as_str());
        proof {
            lemma_strip_clean(e.name@);
            lemma_strip_append(o2, e.name@);
            assert(strip_ansi(out@) =~= pp3);
            assert(out@ =~= pp3);
        }
    }
    let ghost pp35 = pp3 + link_part(e.link_target);
    let ghost sp35 = sp3 + link_part(e.link_target);
    let ghost o25 = out@;
    match &e.link_target {
        Some(t) => {
            out.append(" -> ");
            out.append(t.as_str());
            proof {
                assert(out@ =~= o25 + (" -> "@ + t@));
                lemma_strip_clean(" -> "@ + t@);
                lemma_strip_append(o25, " -> "@ + t@);
                assert(strip_ansi(out@) =~= pp35);
                if !styled {
                    assert(out@ =~= pp35);
                } else {
                    assert(out@ =~= sp35);
                }
            }
        },
        None => {
            proof {
                assert(strip_ansi(out@) =~= pp35);
                if !styled {
                    assert(out@ =~= pp35);
                } else {
                    assert(out@ =~= sp35);
                }
            }
        },
    }
    let ghost pp4 = pp35 + note_plain(e.note);
    let ghost sp4 = sp35 + note_styled(e.note);
    let nt = render_note(&e.note, styled);
    let ghost o3 = out@;
    out.append(nt.as_str());
    proof {
        lemma_strip_append(o3, nt@);
        assert(strip_ansi(out@) =~= pp4);
        if !styled {
            assert(out@ =~= pp4);
        } else {
            assert(out@ =~= sp4);
        }
    }
    let ghost o4 = out@;
    out.append("\n");
    proof {
        reveal_strlit("\n");
        assert(no_esc("\n"@));
        lemma_strip_clean("\n"@);
        lemma_strip_append(o4, "\n"@);
        assert(strip_ansi(out@) =~= long_tail_plain(*e, st, cfg@, *opts));
        if !styled {
            assert(out@ =~= long_tail_plain(*e, st, cfg@, *opts));
        } else {
            assert(out@ =~= long_tail_styled(*e, st, cfg@, *opts));
        }
    }
    out
}

/// Build a single entry's line, looking its status up in the status map.
pub fn build_entry(
    e: &Entry,
    m: &StatusMap,
    cfg: &Config,
    opts: &DisplayOptions,
    styled: bool,
) -> (r: String)
    requires
        entry_wf(*e),
        config_wf(cfg@),
        m.wf(),
    ensures
        strip_ansi(r@) == entry_line_plain(*e, entry_status(*e, m@, opts.show_git), cfg@, *opts),
        esc_state(r@, false) == false,
        !styled ==> r@ == entry_line_plain(
            *e,
            entry_status(*e, m@, opts.show_git),
            cfg@,
            *opts,
        ),
        styled ==> r@ == entry_line_styled(
            *e,
            entry_status(*e, m@, opts.show_git),
            cfg@,
            *opts,
        ),
{
    let st: Option<GitStatus> = if opts.show_git {
        match &e.status_key {
            Some(k) => m.get(k),
            None => None,
        }
    } else {
        None
    };
    proof {
        assert(st == entry_status(*e, m@, opts.show_git));
    }
    if opts.long_format {
        render_long_line(e, st, cfg, opts, styled)
    } else {
        render_core_line(e, st, cfg, opts, styled)
    }
}

/// What a flat listing renders: a single file's entry, a directory's
/// entries, or an unreadable path.
pub enum ListTarget {
    FileEntry(Entry),
    Dir(Vec<Entry>),
    Unreadable(String),
}

/// The names of a directory's entries.
pub open spec fn entries_names(entries: Seq<Entry>) -> Seq<Seq<char>> {
    entries.map_values(|e: Entry| e.name@)
}

/// The block counts of the listed entries, summed.
pub open spec fn blocks_of(entries: Seq<Entry>, ord: Seq<int>) -> int
    decreases ord.len(),
{
    if ord.len() == 0 {
        0
    } else {
        blocks_of(entries, ord.drop_last()) + (if 0 <= ord.last() < entries.len() {
            entries[ord.last()].meta.blocks as int
        } else {
            0
        })
    }
}

/// A block sum is never negative.
proof fn lemma_blocks_nonneg(entries: Seq<Entry>, ord: Seq<int>)
    ensures
        blocks_of(entries, ord) >= 0,
    decreases ord.len(),
{
    if ord.len() > 0 {
        lemma_blocks_nonneg(entries, ord.drop_last());
    }
}

/// A partial block sum never exceeds the whole.
proof fn lemma_blocks_prefix(entries: Seq<Entry>, ord: Seq<int>, k: int)
    requires
        0 <= k <= ord.len(),
    ensures
        blocks_of(entries, ord.take(k)) <= blocks_of(entries, ord),
    decreases ord.len() - k,
{
    if k == ord.len() {
        assert(ord.take(k) =~= ord);
    } else {
        lemma_blocks_prefix(entries, ord, k + 1);
        assert(ord.take(k + 1).drop_last() =~= ord.take(k));
        assert(ord.take(k + 1).last() == ord[k]);
    }
}

/// The lines of a directory listing from position `k` of the visible order.
pub open spec fn dir_lines_plain(
    entries: Seq<Entry>,
    ord: Seq<int>,
    k: int,
    m: Map<Seq<char>, GitStatus>,
    c: ConfigV,
    opts: DisplayOptions,
) -> Seq<char>
    decreases ord.len() - k,
{
    if k < 0 || k >= ord.len() {
        Seq::empty()
    } else {
        (if 0 <= ord[k] < entries.len() {
            entry_line_plain(
                entries[ord[k]],
                entry_status(entries[ord[k]], m, opts.show_git),
                c,
                opts,
            )
        } else {
            Seq::empty()
        }) + dir_lines_plain(entries, ord, k + 1, m, c, opts)
    }
}

/// The `total` header of a long-format directory listing: the block counts
/// of exactly the printed entries, halved into kilobyte units.
pub open spec fn total_line_plain(entries: Seq<Entry>, ord: Seq<int>) -> Seq<char> {
    "total "@ + dec_digits((blocks_of(entries, ord) / 2) as nat) + "\n"@
}

/// A flat listing, as plain text: one line for a file argument, an error
/// line for an unreadable path, and for a directory the optional `total`
/// header followed by one line per visible entry in order.
pub open spec fn list_plain(
    t: ListTarget,
    m: Map<Seq<char>, GitStatus>,
    c: ConfigV,
    opts: DisplayOptions,
) -> Seq<char> {
    match t {
        ListTarget::FileEntry(e) => entry_line_plain(e, entry_status(e, m, opts.show_git), c, opts),
        ListTarget::Unreadable(p) => "Error reading directory: "@ + p@ + "\n"@,
        ListTarget::Dir(entries) => {
            let ord = order_of(entries_names(entries@), opts.show_all);
            (if opts.long_format {
                total_line_plain(entries@, ord)
            } else {
                Seq::empty()
            }) + dir_lines_plain(entries@, ord, 0, m, c, opts)
        },
    }
}

/// The styled lines of a directory listing from position `k` of the
/// visible order.
pub open spec fn dir_lines_styled(
    entries: Seq<Entry>,
    ord: Seq<int>,
    k: int,
    m: Map<Seq<char>, GitStatus>,
    c: ConfigV,
    opts: DisplayOptions,
) -> Seq<char>
    decreases ord.len() - k,
{
    if k < 0 || k >= ord.len() {
        Seq::empty()
    } else {
        (if 0 <= ord[k] < entries.len() {
            entry_line_styled(
                entries[ord[k]],
                entry_status(entries[ord[k]], m, opts.show_git),
                c,
                opts,
            )
        } else {
            Seq::empty()
        }) + dir_lines_styled(entries, ord, k + 1, m, c, opts)
    }
}

/// A styled flat listing: the `total` header and the error line stay
/// unstyled, the entry lines carry their colors.
pub open spec fn list_styled(
    t: ListTarget,
    m: Map<Seq<char>, GitStatus>,
    c: ConfigV,
    opts: DisplayOptions,
) -> Seq<char> {
    match t {
        ListTarget::FileEntry(e) => entry_line_styled(
            e,
            entry_status(e, m, opts.show_git),
            c,
            opts,
        ),
        ListTarget::Unreadable(p) => "Error reading directory: "@ + p@ + "\n"@,
        ListTarget::Dir(entries) => {
            let ord = order_of(entries_names(entries@), opts.show_all);
            (if opts.long_format {
                total_line_plain(entries@, ord)
            } else {
                Seq::empty()
            }) + dir_lines_styled(entries@, ord, 0, m, c, opts)
        },
    }
}

/// Every entry of a listing can stand in render lines.
pub open spec fn entries_wf(entries: Seq<Entry>) -> bool {
    forall|i: int| 0 <= i < entries.len() ==> entry_wf(#[trigger] entries[i])
}

/// A listing whose texts can stand in render lines, and whose block counts
/// fit the machine's sum.
pub open spec fn list_wf(t: ListTarget, show_all: bool) -> bool {
    match t {
        ListTarget::FileEntry(e) => entry_wf(e),
        ListTarget::Unreadable(p) => text_ok(p@),
        ListTarget::Dir(entries) => entries_wf(entries@) && blocks_of(
            entries@,
            order_of(entries_names(entries@), show_all),
        ) <= u64::MAX,
    }
}

/// Build a directory listing and return it as a string: styled for the
/// terminal, or plain for clipboard export.  The two modes render the same
/// content: stripping the ANSI styling bytes from the styled output yields
/// exactly the plain output.
pub fn build_list(
    target: &ListTarget,
    m: &StatusMap,
    cfg: &Config,
    opts: &DisplayOptions,
    styled: bool,
) -> (r: String)
    requires
        list_wf(*target, opts.show_all),
        config_wf(cfg@),
        m.wf(),
    ensures
        strip_ansi(r@) == list_plain(*target, m@, cfg@, *opts),
        esc_state(r@, false) == false,
        !styled ==> r@ == list_plain(*target, m@, cfg@, *opts),
        styled ==> r@ == list_styled(*target, m@, cfg@, *opts),
{
    proof {
        lemma_lit_ok();
    }
    match target {
        ListTarget::FileEntry(e) => build_entry(e, m, cfg, opts, styled),
        ListTarget::Unreadable(p) => {
            let mut out = String::from_str("Error reading directory: ");
            out.append(p.as_str());
            out.append("\n");
            proof {
                reveal_strlit("\n");
                assert(out@ =~= list_plain(*target, m@, cfg@, *opts));
                assert(out@ =~= list_styled(*target, m@, cfg@, *opts));
                assert(no_esc(out@));
                lemma_strip_clean(out@);
            }
            out
        },
        ListTarget::Dir(entries) => {
            let mut names: Vec<String> = Vec::new();
            let mut i: usize = 0;
            while i < entries.len()
                invariant
                    i <= entries@.len(),
                    names@.len() == i,
                    forall|j: int| 0 <= j < i ==> names@[j]@ == entries@[j].name@,
                decreases entries@.len() - i,
            {
                names.push(entries[i].name.clone());
                i = i + 1;
            }
            proof {
                assert(names.deep_view() =~= entries_names(entries@));
            }
            let ord = sort_order(&names, opts.show_all);
            let ghost ordi = order_of(entries_names(entries@), opts.show_all);
            proof {
                assert(ord@.map_values(|u: usize| u as int) == ordi);
                assert(ordi.len() == ord@.len());
                assert(forall|k: int|
                    0 <= k < ord@.len() ==> ordi[k] == (#[trigger] ord@[k]) as int);
            }
            let mut out = String::new();
            let ghost header = if opts.long_format {
                total_line_plain(entries@, ordi)
            } else {
                Seq::<char>::empty()
            };
            if opts.long_format {
                let mut total: u64 = 0;
                let mut k: usize = 0;
                proof {
                    assert(ordi.take(0) =~= Seq::<int>::empty());
                }
                while k < ord.len()
                    invariant
                        k <= ord@.len(),
                        ord@.map_values(|u: usize| u as int) == ordi,
                        ordi == order_of(entries_names(entries@), opts.show_all),
                        forall|j: int| 0 <= j < ord@.len() ==> (ord@[j] as int) < entries@.len(),
                        blocks_of(entries@, ordi) <= u64::MAX,
                        total == blocks_of(entries@, ordi.take(k as int)),
                    decreases ord@.len() - k,
                {
                    let idx = ord[k];
                    proof {
                        assert(ordi[k as int] == ord@[k as int] as int);
                        assert(ordi.take(k + 1).drop_last() =~= ordi.take(k as int));
                        assert(ordi.take(k + 1).last() == ordi[k as int]);
                        lemma_blocks_prefix(entries@, ordi, k + 1);
                        lemma_blocks_nonneg(entries@, ordi.take(k as int));
                    }
                    total = total + entries[idx].meta.blocks;
                    k = k + 1;
                }
                proof {
                    assert(ordi.take(ord@.len() as int) =~= ordi);
                }
                out.append("total ");
                let digits = u64_to_dec(total / 2);
                push_chars(&mut out, &digits);
                out.append("\n");
                proof {
                    reveal_strlit("\n");
                    assert(out@ =~= header);
                    assert(no_esc(out@)) by {
                        crate::text::lemma_dec_digits_all((total / 2) as nat);
                    }
                    lemma_strip_clean(out@);
                }
            } else {
                proof {
                    lemma_strip_clean(out@);
                    assert(out@ =~= header);
                }
            }
            let ghost target_text = list_plain(*target, m@, cfg@, *opts);
            let ghost target_styled = list_styled(*target, m@, cfg@, *opts);
            proof {
                assert(target_text == header + dir_lines_plain(entries@, ordi, 0, m@, cfg@, *opts));
                assert(target_styled == header + dir_lines_styled(
                    entries@,
                    ordi,
                    0,
                    m@,
                    cfg@,
                    *opts,
                ));
            }
            let mut k: usize = 0;
            while k < ord.len()
                invariant
                    k <= ord@.len(),
                    ord@.map_values(|u: usize| u as int) == ordi,
                    forall|j: int| 0 <= j < ord@.len() ==> (ord@[j] as int) < entries@.len(),
                    entries_wf(entries@),
                    config_wf(cfg@),
                    m.wf(),
                    target_text == strip_ansi(out@) + dir_lines_plain(
                        entries@,
                        ordi,
                        k as int,
                        m@,
                        cfg@,
                        *opts,
                    ),
                    esc_state(out@, false) == false,
                    !styled ==> target_text == out@ + dir_lines_plain(
                        entries@,
                        ordi,
                        k as int,
                        m@,
                        cfg@,
                        *opts,
                    ),
                    styled ==> target_styled == out@ + dir_lines_styled(
                        entries@,
                        ordi,
                        k as int,
                        m@,
                        cfg@,
                        *opts,
                    ),
                decreases ord@.len() - k,
            {
                let idx = ord[k];
                proof {
                    assert(ordi[k as int] == ord@[k as int] as int);
                }
                let line = build_entry(&entries[idx], m, cfg, opts, styled);
                let ghost o0 = out@;
                out.append(line.as_str());
                proof {
                    lemma_strip_append(o0, line@);
                }
                k = k + 1;
            }
            proof {
                assert(dir_lines_plain(entries@, ordi, ord@.len() as int, m@, cfg@, *opts)
                    =~= Seq::<char>::empty());
                assert(strip_ansi(out@) + Seq::<char>::empty() =~= strip_ansi(out@));
                if !styled {
                    assert(out@ + Seq::<char>::empty() =~= out@);
                } else {
                    assert(dir_lines_styled(entries@, ordi, ord@.len() as int, m@, cfg@, *opts)
                        =~= Seq::<char>::empty());
                    assert(out@ + Seq::<char>::empty() =~= out@);
                }
            }
            out
        },
    }
}

/// Every tree of a forest is lower than the forest's height bound.
pub proof fn lemma_forest_height(forest: Seq<TreeNode>, i: int)
    requires
        0 <= i < forest.len(),
    ensures
        tree_height(forest[i]) <= forest_height(forest),
    decreases forest.len(),
{
    if i == 0 {
    } else {
        lemma_forest_height(forest.drop_first(), i - 1);
        assert(forest.drop_first()[i - 1] == forest[i]);
    }
}

/// The names of a directory node's children.
pub open spec fn child_names(children: Seq<TreeNode>) -> Seq<Seq<char>> {
    children.map_values(|n: TreeNode| n.entry.name@)
}

/// One tree line: the accumulated prefix, the connector glyph, then the
/// entry's short-format fields.
pub open spec fn tree_entry_line_plain(
    e: Entry,
    st: Option<GitStatus>,
    c: ConfigV,
    opts: DisplayOptions,
    prefix: Seq<char>,
    connector: Seq<char>,
) -> Seq<char> {
    prefix + connector + core_line_plain(e, st, c, opts)
}

/// The lines below a directory node: its visible children in order, each
/// with a connector, directories recursively expanded under an extended
/// prefix.
pub open spec fn tree_lines_plain(
    node: TreeNode,
    m: Map<Seq<char>, GitStatus>,
    c: ConfigV,
    opts: DisplayOptions,
    prefix: Seq<char>,
) -> Seq<char>
    decreases tree_height(node), 0int, 0int,
{
    tree_children_plain(
        node.children@,
        order_of(child_names(node.children@), opts.show_all),
        0,
        m,
        c,
        opts,
        prefix,
    )
}

/// The lines of a node's children from position `k` of the visible order:
/// the last child takes the closing connector and a blank continuation,
/// earlier children the tee connector and a vertical continuation.
pub open spec fn tree_children_plain(
    children: Seq<TreeNode>,
    ord: Seq<int>,
    k: int,
    m: Map<Seq<char>, GitStatus>,
    c: ConfigV,
    opts: DisplayOptions,
    prefix: Seq<char>,
) -> Seq<char>
    decreases forest_height(children), 1int, ord.len() - k,
    via tree_children_plain_decreases
{
    if k < 0 || k >= ord.len() {
        Seq::empty()
    } else {
        (if 0 <= ord[k] < children.len() {
            let child = children[ord[k]];
            let is_last = k == ord.len() - 1;
            let connector = if is_last {
                "└── "@
            } else {
                "├── "@
            };
            let line = tree_entry_line_plain(
                child.entry,
                entry_status(child.entry, m, opts.show_git),
                c,
                opts,
                prefix,
                connector,
            );
            let sub = if child.entry.meta.is_dir {
                tree_lines_plain(
                    child,
                    m,
                    c,
                    opts,
                    prefix + (if is_last {
                        "    "@
                    } else {
                        "│   "@
                    }),
                )
            } else {
                Seq::empty()
            };
            line + sub
        } else {
            Seq::empty()
        }) + tree_children_plain(children, ord, k + 1, m, c, opts, prefix)
    }
}

#[via_fn]
proof fn tree_children_plain_decreases(
    children: Seq<TreeNode>,
    ord: Seq<int>,
    k: int,
    m: Map<Seq<char>, GitStatus>,
    c: ConfigV,
    opts: DisplayOptions,
    prefix: Seq<char>,
) {
    if 0 <= k < ord.len() && 0 <= ord[k] < children.len() {
        lemma_forest_height(children, ord[k]);
    }
}

/// The styled lines below a directory node.
pub open spec fn tree_lines_styled(
    node: TreeNode,
    m: Map<Seq<char>, GitStatus>,
    c: ConfigV,
    opts: DisplayOptions,
    prefix: Seq<char>,
) -> Seq<char>
    decreases tree_height(node), 0int, 0int,
{
    tree_children_styled(
        node.children@,
        order_of(child_names(node.children@), opts.show_all),
        0,
        m,
        c,
        opts,
        prefix,
    )
}

/// The styled lines of a node's children from position `k` of the visible
/// order.
pub open spec fn tree_children_styled(
    children: Seq<TreeNode>,
    ord: Seq<int>,
    k: int,
    m: Map<Seq<char>, GitStatus>,
    c: ConfigV,
    opts: DisplayOptions,
    prefix: Seq<char>,
) -> Seq<char>
    decreases forest_height(children), 1int, ord.len() - k,
    via tree_children_styled_decreases
{
    if k < 0 || k >= ord.len() {
        Seq::empty()
    } else {
        (if 0 <= ord[k] < children.len() {
            let child = children[ord[k]];
            let is_last = k == ord.len() - 1;
            let connector = if is_last {
                "└── "@
            } else {
                "├── "@
            };
            let line = prefix + connector + core_line_styled(
                child.entry,
                entry_status(child.entry, m, opts.show_git),
                c,
                opts,
            );
            let sub = if child.entry.meta.is_dir {
                tree_lines_styled(
                    child,
                    m,
                    c,
                    opts,
                    prefix + (if is_last {
                        "    "@
                    } else {
                        "│   "@
                    }),
                )
            } else {
                Seq::empty()
            };
            line + sub
        } else {
            Seq::empty()
        }) + tree_children_styled(children, ord, k + 1, m, c, opts, prefix)
    }
}

#[via_fn]
proof fn tree_children_styled_decreases(
    children: Seq<TreeNode>,
    ord: Seq<int>,
    k: int,
    m: Map<Seq<char>, GitStatus>,
    c: ConfigV,
    opts: DisplayOptions,
    prefix: Seq<char>,
) {
    if 0 <= k < ord.len() && 0 <= ord[k] < children.len() {
        lemma_forest_height(children, ord[k]);
    }
}

/// What one visible child contributes to the styled rendering.
pub open spec fn tree_child_block_styled(
    child: TreeNode,
    is_last: bool,
    m: Map<Seq<char>, GitStatus>,
    c: ConfigV,
    opts: DisplayOptions,
    prefix: Seq<char>,
) -> Seq<char> {
    prefix + (if is_last {
        "└── "@
    } else {
        "├── "@
    }) + core_line_styled(child.entry, entry_status(child.entry, m, opts.show_git), c, opts) + (
    if child.entry.meta.is_dir {
        tree_lines_styled(
            child,
            m,
            c,
            opts,
            prefix + (if is_last {
                "    "@
            } else {
                "│   "@
            }),
        )
    } else {
        Seq::empty()
    })
}

/// The styled header of a tree rendering: the root directory's name in the
/// configured directory color, bold, its icon unstyled.
pub open spec fn tree_header_styled(
    root: TreeNode,
    c: ConfigV,
    opts: DisplayOptions,
    prefix: Seq<char>,
) -> Seq<char> {
    if prefix.len() == 0 {
        (if opts.show_icons {
            c.icons.directory + " "@
        } else {
            Seq::empty()
        }) + styled_wrap(
            root.entry.name@,
            spec_parse_color(lower_of(c.colors.directory)),
            true,
        ) + "\n"@
    } else {
        Seq::empty()
    }
}

/// A styled tree rendering.
pub open spec fn tree_styled(
    root: TreeNode,
    m: Map<Seq<char>, GitStatus>,
    c: ConfigV,
    opts: DisplayOptions,
    prefix: Seq<char>,
) -> Seq<char> {
    tree_header_styled(root, c, opts, prefix) + tree_lines_styled(root, m, c, opts, prefix)
}

/// The header of a tree rendering: at the root call (empty prefix) the
/// directory's own icon and name on a line of their own.
pub open spec fn tree_header_plain(
    root: TreeNode,
    c: ConfigV,
    opts: DisplayOptions,
    prefix: Seq<char>,
) -> Seq<char> {
    if prefix.len() == 0 {
        (if opts.show_icons {
            c.icons.directory + " "@
        } else {
            Seq::empty()
        }) + root.entry.name@ + "\n"@
    } else {
        Seq::empty()
    }
}

/// A tree rendering, as plain text: the root header, then the recursive
/// expansion of the root's children.
pub open spec fn tree_plain(
    root: TreeNode,
    m: Map<Seq<char>, GitStatus>,
    c: ConfigV,
    opts: DisplayOptions,
    prefix: Seq<char>,
) -> Seq<char> {
    tree_header_plain(root, c, opts, prefix) + tree_lines_plain(root, m, c, opts, prefix)
}

/// What one visible child contributes: its line, and, for a directory,
/// its recursively expanded subtree.
pub open spec fn tree_child_block_plain(
    child: TreeNode,
    is_last: bool,
    m: Map<Seq<char>, GitStatus>,
    c: ConfigV,
    opts: DisplayOptions,
    prefix: Seq<char>,
) -> Seq<char> {
    tree_entry_line_plain(
        child.entry,
        entry_status(child.entry, m, opts.show_git),
        c,
        opts,
        prefix,
        if is_last {
            "└── "@
        } else {
            "├── "@
        },
    ) + (if child.entry.meta.is_dir {
        tree_lines_plain(
            child,
            m,
            c,
            opts,
            prefix + (if is_last {
                "    "@
            } else {
                "│   "@
            }),
        )
    } else {
        Seq::empty()
    })
}

/// Build one visible child's line and, for a directory, its subtree.
fn build_tree_child(
    child: &TreeNode,
    is_last: bool,
    m: &StatusMap,
    cfg: &Config,
    opts: &DisplayOptions,
    prefix: &String,
    styled: bool,
) -> (r: String)
    requires
        tree_wf(*child),
        config_wf(cfg@),
        m.wf(),
        text_ok(prefix@),
    ensures
        strip_ansi(r@) == tree_child_block_plain(*child, is_last, m@, cfg@, *opts, prefix@),
        esc_state(r@, false) == false,
        !styled ==> r@ == tree_child_block_plain(*child, is_last, m@, cfg@, *opts, prefix@),
        styled ==> r@ == tree_child_block_styled(*child, is_last, m@, cfg@, *opts, prefix@),
    decreases tree_height(*child), 1int,
{
    proof {
        lemma_lit_ok();
    }
    let connector: &str = if is_last {
        "└── "
    } else {
        "├── "
    };
    let ghost conn_v = if is_last {
        "└── "@
    } else {
        "├── "@
    };
    let st: Option<GitStatus> = if opts.show_git {
        match &child.entry.status_key {
            Some(key) => m.get(key),
            None => None,
        }
    } else {
        None
    };
    proof {
        assert(st == entry_status(child.entry, m@, opts.show_git));
    }
    let core = render_core_line(&child.entry, st, cfg, opts, styled);
    let mut out = prefix.clone();
    out.append(connector);
    out.append(core.as_str());
    let ghost line_plain = tree_entry_line_plain(child.entry, st, cfg@, *opts, prefix@, conn_v);
    let ghost line_styled = prefix@ + conn_v + core_line_styled(child.entry, st, cfg@, *opts);
    proof {
        assert(out@ =~= (prefix@ + conn_v) + core@);
        assert(no_esc(prefix@ + conn_v));
        lemma_strip_clean(prefix@ + conn_v);
        lemma_strip_append(prefix@ + conn_v, core@);
        assert(strip_ansi(out@) =~= line_plain);
        if !styled {
            assert(out@ =~= line_plain);
        } else {
            assert(out@ =~= line_styled);
        }
    }
    if child.entry.meta.is_dir {
        let mut np = prefix.clone();
        np.append(
            if is_last {
                "    "
            } else {
                "│   "
            },
        );
        proof {
            assert(text_ok(np@));
        }
        let sub = build_tree_children(child, m, cfg, opts, &np, styled);
        let ghost o1 = out@;
        out.append(sub.as_str());
        proof {
            lemma_strip_append(o1, sub@);
            assert(strip_ansi(out@) =~= tree_child_block_plain(
                *child,
                is_last,
                m@,
                cfg@,
                *opts,
                prefix@,
            ));
            if !styled {
                assert(out@ =~= tree_child_block_plain(
                    *child,
                    is_last,
                    m@,
                    cfg@,
                    *opts,
                    prefix@,
                ));
            } else {
                assert(out@ =~= tree_child_block_styled(
                    *child,
                    is_last,
                    m@,
                    cfg@,
                    *opts,
                    prefix@,
                ));
            }
        }
    } else {
        proof {
            assert(strip_ansi(out@) + Seq::<char>::empty() =~= strip_ansi(out@));
            if !styled {
                assert(out@ + Seq::<char>::empty() =~= out@);
            } else {
                assert(out@ =~= tree_child_block_styled(
                    *child,
                    is_last,
                    m@,
                    cfg@,
                    *opts,
                    prefix@,
                ));
            }
        }
    }
    out
}

/// Build the lines below one directory node.
#[verifier::rlimit(100)]
#[verifier::spinoff_prover]
fn build_tree_children(
    node: &TreeNode,
    m: &StatusMap,
    cfg: &Config,
    opts: &DisplayOptions,
    prefix: &String,
    styled: bool,
) -> (r: String)
    requires
        tree_wf(*node),
        config_wf(cfg@),
        m.wf(),
        text_ok(prefix@),
    ensures
        strip_ansi(r@) == tree_lines_plain(*node, m@, cfg@, *opts, prefix@),
        esc_state(r@, false) == false,
        !styled ==> r@ == tree_lines_plain(*node, m@, cfg@, *opts, prefix@),
        styled ==> r@ == tree_lines_styled(*node, m@, cfg@, *opts, prefix@),
    decreases tree_height(*node), 0int,
{
    let mut names: Vec<String> = Vec::new();
    let mut i: usize = 0;
    while i < node.children.len()
        invariant
            i <= node.children@.len(),
            names@.len() == i,
            forall|j: int| 0 <= j < i ==> names@[j]@ == node.children@[j].entry.name@,
        decreases node.children@.len() - i,
    {
        names.push(node.children[i].entry.name.clone());
        i = i + 1;
    }
    proof {
        assert(names.deep_view() =~= child_names(node.children@));
    }
    let ord = sort_order(&names, opts.show_all);
    let ghost ordi = order_of(child_names(node.children@), opts.show_all);
    proof {
        assert(ord@.map_values(|u: usize| u as int) == ordi);
        assert(forall|k: int| 0 <= k < ord@.len() ==> ordi[k] == (#[trigger] ord@[k]) as int);
    }
    let mut out = String::new();
    let ghost target_text = tree_lines_plain(*node, m@, cfg@, *opts, prefix@);
    let ghost target_styled = tree_lines_styled(*node, m@, cfg@, *opts, prefix@);
    proof {
        lemma_strip_clean(out@);
        assert(target_text == tree_children_plain(
            node.children@,
            ordi,
            0,
            m@,
            cfg@,
            *opts,
            prefix@,
        ));
        assert(out@ + tree_children_plain(node.children@, ordi, 0, m@, cfg@, *opts, prefix@)
            =~= tree_children_plain(node.children@, ordi, 0, m@, cfg@, *opts, prefix@));
        assert(target_styled == tree_children_styled(
            node.children@,
            ordi,
            0,
            m@,
            cfg@,
            *opts,
            prefix@,
        ));
        assert(out@ + tree_children_styled(node.children@, ordi, 0, m@, cfg@, *opts, prefix@)
            =~= tree_children_styled(node.children@, ordi, 0, m@, cfg@, *opts, prefix@));
    }
    let mut k: usize = 0;
    while k < ord.len()
        invariant
            k <= ord@.len(),
            ord@.map_values(|u: usize| u as int) == ordi,
            forall|j: int| 0 <= j < ord@.len() ==> (ord@[j] as int) < node.children@.len(),
            tree_wf(*node),
            config_wf(cfg@),
            m.wf(),
            text_ok(prefix@),
            target_text == strip_ansi(out@) + tree_children_plain(
                node.children@,
                ordi,
                k as int,
                m@,
                cfg@,
                *opts,
                prefix@,
            ),
            esc_state(out@, false) == false,
            !styled ==> target_text == out@ + tree_children_plain(
                node.children@,
                ordi,
                k as int,
                m@,
                cfg@,
                *opts,
                prefix@,
            ),
            styled ==> target_styled == out@ + tree_children_styled(
                node.children@,
                ordi,
                k as int,
                m@,
                cfg@,
                *opts,
                prefix@,
            ),
        decreases ord@.len() - k,
    {
        let idx = ord[k];
        proof {
            assert(ordi[k as int] == ord@[k as int] as int);
        }
        let child = &node.children[idx];
        proof {
            lemma_forest_wf(node.children@, idx as int);
            lemma_forest_height(node.children@, idx as int);
        }
        let is_last = k == ord.len() - 1;
        let block = build_tree_child(child, is_last, m, cfg, opts, prefix, styled);
        let ghost o0 = out@;
        out.append(block.as_str());
        proof {
            lemma_strip_append(o0, block@);
            assert(tree_children_plain(node.children@, ordi, k as int, m@, cfg@, *opts, prefix@)
                =~= tree_child_block_plain(*child, is_last, m@, cfg@, *opts, prefix@)
                + tree_children_plain(node.children@, ordi, k + 1, m@, cfg@, *opts, prefix@));
            assert(strip_ansi(out@) =~= strip_ansi(o0) + tree_child_block_plain(
                *child,
                is_last,
                m@,
                cfg@,
                *opts,
                prefix@,
            ));
            if styled {
                assert(tree_children_styled(
                    node.children@,
                    ordi,
                    k as int,
                    m@,
                    cfg@,
                    *opts,
                    prefix@,
                ) =~= tree_child_block_styled(*child, is_last, m@, cfg@, *opts, prefix@)
                    + tree_children_styled(
                    node.children@,
                    ordi,
                    k + 1,
                    m@,
                    cfg@,
                    *opts,
                    prefix@,
                ));
            }
        }
        k = k + 1;
    }
    proof {
        assert(tree_children_plain(
            node.children@,
            ordi,
            ord@.len() as int,
            m@,
            cfg@,
            *opts,
            prefix@,
        ) =~= Seq::<char>::empty());
        assert(strip_ansi(out@) + Seq::<char>::empty() =~= strip_ansi(out@));
        if !styled {
            assert(out@ + Seq::<char>::empty() =~= out@);
        } else {
            assert(tree_children_styled(
                node.children@,
                ordi,
                ord@.len() as int,
                m@,
                cfg@,
                *opts,
                prefix@,
            ) =~= Seq::<char>::empty());
            assert(out@ + Seq::<char>::empty() =~= out@);
        }
    }
    out
}

/// Tree connector correctness: a directory's expansion is one block per
/// visible child, in order; the block of child `k` opens with the prefix
/// and the tee connector, and exactly the last block opens with the closing
/// connector; a directory child's own lines are produced under the prefix
/// extended by one four-character segment, so indentation depth equals
/// nesting level.
pub proof fn lemma_tree_connectors(
    children: Seq<TreeNode>,
    ord: Seq<int>,
    k: int,
    m: Map<Seq<char>, GitStatus>,
    c: ConfigV,
    opts: DisplayOptions,
    prefix: Seq<char>,
)
    requires
        0 <= k < ord.len(),
        0 <= ord[k] < children.len(),
    ensures
        tree_children_plain(children, ord, k, m, c, opts, prefix) == tree_child_block_plain(
            children[ord[k]],
            k == ord.len() - 1,
            m,
            c,
            opts,
            prefix,
        ) + tree_children_plain(children, ord, k + 1, m, c, opts, prefix),
        tree_child_block_plain(children[ord[k]], k == ord.len() - 1, m, c, opts, prefix).take(
            prefix.len() as int + 4,
        ) == prefix + (if k == ord.len() - 1 {
            "└── "@
        } else {
            "├── "@
        }),
        (if k == ord.len() - 1 {
            "    "@
        } else {
            "│   "@
        }).len() == 4,
{
    reveal_strlit("└── ");
    reveal_strlit("├── ");
    reveal_strlit("    ");
    reveal_strlit("│   ");
    let is_last = k == ord.len() - 1;
    let conn = if is_last {
        "└── "@
    } else {
        "├── "@
    };
    let block = tree_child_block_plain(children[ord[k]], is_last, m, c, opts, prefix);
    assert(tree_children_plain(children, ord, k, m, c, opts, prefix) =~= block
        + tree_children_plain(children, ord, k + 1, m, c, opts, prefix));
    assert(conn.len() == 4);
    assert(block.take(prefix.len() as int + 4) =~= prefix + conn);
}

/// The `total` header of a long-format flat listing: the output opens with
/// a line counting the summed block counts of exactly the entries that are
/// printed, converted to kilobyte units by integer division.
pub proof fn lemma_total_line(
    t: ListTarget,
    m: Map<Seq<char>, GitStatus>,
    c: ConfigV,
    opts: DisplayOptions,
)
    requires
        opts.long_format,
        t is Dir,
    ensures
        list_plain(t, m, c, opts) == total_line_plain(
            t->Dir_0@,
            order_of(entries_names(t->Dir_0@), opts.show_all),
        ) + dir_lines_plain(
            t->Dir_0@,
            order_of(entries_names(t->Dir_0@), opts.show_all),
            0,
            m,
            c,
            opts,
        ),
{
}

/// Build a tree view of a directory and return it as a string: styled for
/// the terminal, or plain for clipboard export.  The two modes render the
/// same content: stripping the ANSI styling bytes from the styled output
/// yields exactly the plain output.
pub fn build_tree(
    root: &TreeNode,
    m: &StatusMap,
    cfg: &Config,
    opts: &DisplayOptions,
    prefix: &str,
    styled: bool,
) -> (r: String)
    requires
        tree_wf(*root),
        config_wf(cfg@),
        m.wf(),
        text_ok(prefix@),
    ensures
        strip_ansi(r@) == tree_plain(*root, m@, cfg@, *opts, prefix@),
        esc_state(r@, false) == false,
        !styled ==> r@ == tree_plain(*root, m@, cfg@, *opts, prefix@),
        styled ==> r@ == tree_styled(*root, m@, cfg@, *opts, prefix@),
{
    proof {
        lemma_lit_ok();
    }
    let mut out = String::new();
    let ghost header = tree_header_plain(*root, cfg@, *opts, prefix@);
    let ghost header_s = tree_header_styled(*root, cfg@, *opts, prefix@);
    if prefix.is_empty() {
        if opts.show_icons {
            out.append(cfg.icons.directory.as_str());
            out.append(" ");
        }
        let ghost o0 = out@;
        proof {
            assert(no_esc(o0));
        }
        if styled {
            let c = parse_color(cfg.colors.directory.as_str());
            let nm = paint(root.entry.name.as_str(), &c, true);
            out.append(nm.as_str());
            proof {
                lemma_strip_styled(root.entry.name@, c, true);
                lemma_strip_clean(o0);
                lemma_strip_append(o0, nm@);
            }
            let ghost o1 = out@;
            out.append("\n");
            proof {
                reveal_strlit("\n");
                lemma_strip_clean("\n"@);
                lemma_strip_append(o1, "\n"@);
                assert(strip_ansi(out@) =~= header);
                assert(out@ =~= header_s);
            }
        } else {
            out.append(root.entry.name.as_str());
            out.append("\n");
            proof {
                reveal_strlit("\n");
                assert(out@ =~= header);
                assert(no_esc(out@));
                lemma_strip_clean(out@);
            }
        }
    } else {
        proof {
            lemma_strip_clean(out@);
            assert(out@ =~= header);
            assert(out@ =~= header_s);
        }
    }
    let pv = String::from_str(prefix);
    let body = build_tree_children(root, m, cfg, opts, &pv, styled);
    let ghost o2 = out@;
    out.append(body.as_str());
    proof {
        lemma_strip_append(o2, body@);
        assert(strip_ansi(out@) =~= tree_plain(*root, m@, cfg@, *opts, prefix@));
        if !styled {
            assert(out@ =~= tree_plain(*root, m@, cfg@, *opts, prefix@));
        } else {
            assert(out@ =~= tree_styled(*root, m@, cfg@, *opts, prefix@));
        }
    }
    out
}

} // verus!
