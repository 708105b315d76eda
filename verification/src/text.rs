//! Character-level text helpers shared by the parsing and rendering modules:
//! conversion between `String` and `Vec<char>`, case folding, lexicographic
//! order, decimal formatting, padding, and stripping of ANSI styling bytes.

use vstd::prelude::*;
use vstd::string::*;

verus! {

/// What `str::to_lowercase` returns: the Unicode lowercase form of a
/// character sequence, a function of the characters alone.
pub uninterp spec fn lower_of(s: Seq<char>) -> Seq<char>;

/// Relies on `str::to_lowercase`: the result depends on the characters alone.
#[verifier::external_body]
pub fn to_lowercase(s: &str) -> (r: String)
    ensures
        r@ == lower_of(s@),
{
    s.to_lowercase()
}

/// Relies on `String::push`: appends one character.
#[verifier::external_body]
pub fn push_char(s: &mut String, c: char)
    ensures
        final(s)@ == old(s)@.push(c),
{
    s.push(c);
}

/// The characters of a string slice as a vector.
pub fn chars_of(s: &str) -> (r: Vec<char>)
    ensures
        r@ == s@,
{
    let n = s.unicode_len();
    let mut r: Vec<char> = Vec::new();
    let mut i: usize = 0;
    while i < n
        invariant
            i <= n,
            n == s@.len(),
            r@ == s@.take(i as int),
        decreases n - i,
    {
        let c = s.get_char(i);
        r.push(c);
        proof {
            assert(r@ =~= s@.take(i + 1));
        }
        i = i + 1;
    }
    proof {
        assert(r@ =~= s@);
    }
    r
}

/// Append a vector of characters to a string.
pub fn push_chars(out: &mut String, v: &Vec<char>)
    ensures
        final(out)@ == old(out)@ + v@,
{
    let ghost start = out@;
    let mut i: usize = 0;
    while i < v.len()
        invariant
            i <= v@.len(),
            out@ == start + v@.take(i as int),
        decreases v@.len() - i,
    {
        push_char(out, v[i]);
        proof {
            assert(start + v@.take(i as int) + seq![v@[i as int]] =~= start + v@.take(i + 1));
        }
        i = i + 1;
    }
    proof {
        assert(start + v@.take(v@.len() as int) =~= start + v@);
    }
}

/// A string holding exactly the given characters.
pub fn string_of(v: &Vec<char>) -> (r: String)
    ensures
        r@ == v@,
{
    let mut r = String::new();
    push_chars(&mut r, v);
    proof {
        assert(Seq::<char>::empty() + v@ =~= v@);
    }
    r
}

/// Lexicographic order on character sequences, by code point; the order that
/// `str` comparison gives on valid text.
pub open spec fn lex_le(a: Seq<char>, b: Seq<char>) -> bool
    decreases a.len(),
{
    if a.len() == 0 {
        true
    } else if b.len() == 0 {
        false
    } else if a[0] == b[0] {
        lex_le(a.drop_first(), b.drop_first())
    } else {
        (a[0] as u32) < (b[0] as u32)
    }
}

/// Dropping an equal prefix does not change the lexicographic comparison.
pub proof fn lemma_lex_common_prefix(a: Seq<char>, b: Seq<char>, i: int)
    requires
        0 <= i <= a.len(),
        i <= b.len(),
        forall|j: int| 0 <= j < i ==> a[j] == b[j],
    ensures
        lex_le(a, b) == lex_le(a.skip(i), b.skip(i)),
    decreases i,
{
    if i > 0 {
        assert(a.skip(i - 1).drop_first() =~= a.skip(i));
        assert(b.skip(i - 1).drop_first() =~= b.skip(i));
        lemma_lex_common_prefix(a, b, i - 1);
        assert(a.skip(i - 1)[0] == a[i - 1]);
        assert(b.skip(i - 1)[0] == b[i - 1]);
    } else {
        assert(a.skip(0) =~= a);
        assert(b.skip(0) =~= b);
    }
}

/// Whether character vector `a` orders at or before `b`.
pub fn chars_le(a: &Vec<char>, b: &Vec<char>) -> (r: bool)
    ensures
        r == lex_le(a@, b@),
{
    let mut i: usize = 0;
    loop
        invariant
            i <= a@.len(),
            i <= b@.len(),
            forall|j: int| 0 <= j < i ==> a@[j] == b@[j],
        decreases a@.len() - i,
    {
        if i == a.len() {
            proof {
                lemma_lex_common_prefix(a@, b@, i as int);
                assert(a@.skip(i as int).len() == 0);
            }
            return true;
        }
        if i == b.len() {
            proof {
                lemma_lex_common_prefix(a@, b@, i as int);
                assert(b@.skip(i as int).len() == 0);
                assert(a@.skip(i as int).len() > 0);
            }
            return false;
        }
        if a[i] != b[i] {
            proof {
                lemma_lex_common_prefix(a@, b@, i as int);
                assert(a@.skip(i as int)[0] == a@[i as int]);
                assert(b@.skip(i as int)[0] == b@[i as int]);
            }
            return (a[i] as u32) < (b[i] as u32);
        }
        i = i + 1;
    }
}

/// Whether two character vectors hold the same characters.
pub fn chars_eq(a: &Vec<char>, b: &Vec<char>) -> (r: bool)
    ensures
        r == (a@ == b@),
{
    if a.len() != b.len() {
        return false;
    }
    let mut i: usize = 0;
    while i < a.len()
        invariant
            i <= a@.len(),
            a@.len() == b@.len(),
            forall|j: int| 0 <= j < i ==> a@[j] == b@[j],
        decreases a@.len() - i,
    {
        if a[i] != b[i] {
            return false;
        }
        i = i + 1;
    }
    proof {
        assert(a@ =~= b@);
    }
    true
}

/// The character of a single decimal digit.
pub open spec fn digit_char(d: nat) -> char {
    if d == 0 {
        '0'
    } else if d == 1 {
        '1'
    } else if d == 2 {
        '2'
    } else if d == 3 {
        '3'
    } else if d == 4 {
        '4'
    } else if d == 5 {
        '5'
    } else if d == 6 {
        '6'
    } else if d == 7 {
        '7'
    } else if d == 8 {
        '8'
    } else {
        '9'
    }
}

/// The decimal digits of a number, most significant first.
pub open spec fn dec_digits(n: nat) -> Seq<char>
    decreases n,
{
    if n < 10 {
        seq![digit_char(n)]
    } else {
        dec_digits(n / 10).push(digit_char(n % 10))
    }
}

/// The decimal representation of a number.
pub fn u64_to_dec(n: u64) -> (r: Vec<char>)
    ensures
        r@ == dec_digits(n as nat),
{
    let mut cur: u64 = n;
    let mut acc: Vec<char> = Vec::new();
    while cur >= 10
        invariant
            dec_digits(n as nat) == dec_digits(cur as nat) + acc@,
        decreases cur,
    {
        let d = (cur % 10) as u8;
        let c: char = digit_to_char(d);
        acc.insert(0, c);
        proof {
            assert(dec_digits(cur as nat) =~= dec_digits(cur as nat / 10).push(digit_char(
                cur as nat % 10,
            )));
            assert(dec_digits(cur as nat / 10).push(digit_char(cur as nat % 10)) + acc@.drop_first()
                =~= dec_digits(cur as nat / 10) + acc@);
        }
        cur = cur / 10;
    }
    let c: char = digit_to_char(cur as u8);
    acc.insert(0, c);
    proof {
        assert(dec_digits(cur as nat) =~= seq![digit_char(cur as nat)]);
        assert(seq![digit_char(cur as nat)] + acc@.drop_first() =~= acc@);
    }
    acc
}

/// The character of one digit value.
pub fn digit_to_char(d: u8) -> (c: char)
    requires
        d < 10,
    ensures
        c == digit_char(d as nat),
{
    match d {
        0 => '0',
        1 => '1',
        2 => '2',
        3 => '3',
        4 => '4',
        5 => '5',
        6 => '6',
        7 => '7',
        8 => '8',
        _ => '9',
    }
}

/// A run of spaces.
pub open spec fn spaces(n: nat) -> Seq<char>
    decreases n,
{
    if n == 0 {
        Seq::empty()
    } else {
        spaces((n - 1) as nat).push(' ')
    }
}

/// A run of spaces holds spaces alone.
pub proof fn lemma_spaces_all(n: nat)
    ensures
        spaces(n).len() == n,
        forall|i: int| 0 <= i < n ==> spaces(n)[i] == ' ',
    decreases n,
{
    if n > 0 {
        lemma_spaces_all((n - 1) as nat);
    }
}

/// A decimal representation holds digit characters alone.
pub proof fn lemma_dec_digits_all(n: nat)
    ensures
        dec_digits(n).len() >= 1,
        no_esc(dec_digits(n)),
        no_nl(dec_digits(n)),
    decreases n,
{
    if n >= 10 {
        lemma_dec_digits_all(n / 10);
    }
}

/// Left padding with spaces up to a field width, as `{:>w}` formats it.
pub open spec fn pad_left_spec(s: Seq<char>, w: nat) -> Seq<char> {
    if s.len() >= w {
        s
    } else {
        spaces((w - s.len()) as nat) + s
    }
}

/// Right padding with spaces up to a field width, as `{:<w}` formats it.
pub open spec fn pad_right_spec(s: Seq<char>, w: nat) -> Seq<char> {
    if s.len() >= w {
        s
    } else {
        s + spaces((w - s.len()) as nat)
    }
}

/// A vector of `n` spaces.
pub fn make_spaces(n: usize) -> (r: Vec<char>)
    ensures
        r@ == spaces(n as nat),
{
    let mut r: Vec<char> = Vec::new();
    let mut i: usize = 0;
    while i < n
        invariant
            i <= n,
            r@ == spaces(i as nat),
        decreases n - i,
    {
        r.push(' ');
        i = i + 1;
    }
    r
}

/// Append `v` to `out`, left-padded with spaces to width `w` characters.
pub fn push_pad_left(out: &mut String, v: &Vec<char>, w: usize)
    ensures
        final(out)@ == old(out)@ + pad_left_spec(v@, w as nat),
{
    if v.len() < w {
        let pad = make_spaces(w - v.len());
        push_chars(out, &pad);
        push_chars(out, v);
        proof {
            assert(old(out)@ + spaces((w - v@.len()) as nat) + v@ =~= old(out)@ + (spaces(
                (w - v@.len()) as nat,
            ) + v@));
        }
    } else {
        push_chars(out, v);
    }
}

/// Append `v` to `out`, right-padded with spaces to width `w` characters.
pub fn push_pad_right(out: &mut String, v: &Vec<char>, w: usize)
    ensures
        final(out)@ == old(out)@ + pad_right_spec(v@, w as nat),
{
    if v.len() < w {
        let pad = make_spaces(w - v.len());
        push_chars(out, v);
        push_chars(out, &pad);
        proof {
            assert(old(out)@ + v@ + spaces((w - v@.len()) as nat) =~= old(out)@ + (v@ + spaces(
                (w - v@.len()) as nat,
            )));
        }
    } else {
        push_chars(out, v);
    }
}

/// The characters of `v` from position `n` on.
pub fn chars_from(v: &Vec<char>, n: usize) -> (r: Vec<char>)
    requires
        n <= v@.len(),
    ensures
        r@ == v@.skip(n as int),
{
    let mut r: Vec<char> = Vec::new();
    let mut i: usize = n;
    while i < v.len()
        invariant
            n <= i <= v@.len(),
            r@ == v@.subrange(n as int, i as int),
        decreases v@.len() - i,
    {
        r.push(v[i]);
        proof {
            assert(r@ =~= v@.subrange(n as int, i + 1));
        }
        i = i + 1;
    }
    proof {
        assert(r@ =~= v@.skip(n as int));
    }
    r
}

/// The first `n` characters of `v`.
pub fn chars_take(v: &Vec<char>, n: usize) -> (r: Vec<char>)
    requires
        n <= v@.len(),
    ensures
        r@ == v@.take(n as int),
{
    let mut r: Vec<char> = Vec::new();
    let mut i: usize = 0;
    while i < n
        invariant
            i <= n <= v@.len(),
            r@ == v@.take(i as int),
        decreases n - i,
    {
        r.push(v[i]);
        proof {
            assert(r@ =~= v@.take(i + 1));
        }
        i = i + 1;
    }
    r
}

/// Whether `v` starts with the characters of `p`.
pub fn has_prefix(v: &Vec<char>, p: &str) -> (r: bool)
    ensures
        r == (v@.len() >= p@.len() && v@.take(p@.len() as int) == p@),
{
    let pc = chars_of(p);
    if v.len() < pc.len() {
        return false;
    }
    let mut i: usize = 0;
    while i < pc.len()
        invariant
            i <= pc@.len() <= v@.len(),
            pc@ == p@,
            forall|j: int| 0 <= j < i ==> v@[j] == p@[j],
        decreases pc@.len() - i,
    {
        if v[i] != pc[i] {
            proof {
                assert(v@.take(p@.len() as int)[i as int] == v@[i as int]);
            }
            return false;
        }
        i = i + 1;
    }
    proof {
        assert(v@.take(p@.len() as int) =~= p@);
    }
    true
}

/// The whitespace characters that report lines are trimmed of.
pub open spec fn is_ws(c: char) -> bool {
    c == ' ' || c == '\t' || c == '\r' || c == '\n'
}

/// A sequence with its leading whitespace dropped.
pub open spec fn trim_start_spec(s: Seq<char>) -> Seq<char>
    decreases s.len(),
{
    if s.len() > 0 && is_ws(s[0]) {
        trim_start_spec(s.drop_first())
    } else {
        s
    }
}

/// A sequence with its trailing whitespace dropped.
pub open spec fn trim_end_spec(s: Seq<char>) -> Seq<char>
    decreases s.len(),
{
    if s.len() > 0 && is_ws(s.last()) {
        trim_end_spec(s.drop_last())
    } else {
        s
    }
}

/// A sequence with whitespace dropped at both ends.
pub open spec fn trim_spec(s: Seq<char>) -> Seq<char> {
    trim_end_spec(trim_start_spec(s))
}

/// Whether an exec character is whitespace in the sense of `is_ws`.
pub fn is_ws_char(c: char) -> (r: bool)
    ensures
        r == is_ws(c),
{
    c == ' ' || c == '\t' || c == '\r' || c == '\n'
}

/// The characters of `v` between the first and last non-whitespace one.
pub fn trim_chars(v: &Vec<char>) -> (r: Vec<char>)
    ensures
        r@ == trim_spec(v@),
{
    let mut lo: usize = 0;
    proof {
        assert(v@.skip(0) =~= v@);
    }
    while lo < v.len() && is_ws_char(v[lo])
        invariant
            lo <= v@.len(),
            trim_start_spec(v@) == trim_start_spec(v@.skip(lo as int)),
        decreases v@.len() - lo,
    {
        proof {
            assert(v@.skip(lo as int).drop_first() =~= v@.skip(lo + 1));
        }
        lo = lo + 1;
    }
    proof {
        if lo < v@.len() {
            assert(trim_start_spec(v@.skip(lo as int)) =~= v@.skip(lo as int));
        } else {
            assert(v@.skip(lo as int) =~= Seq::<char>::empty());
        }
    }
    let mut hi: usize = v.len();
    while hi > lo && is_ws_char(v[hi - 1])
        invariant
            lo <= hi <= v@.len(),
            trim_start_spec(v@) == v@.skip(lo as int),
            trim_end_spec(v@.skip(lo as int)) == trim_end_spec(v@.subrange(lo as int, hi as int)),
        decreases hi,
    {
        proof {
            assert(v@.subrange(lo as int, hi as int).drop_last() =~= v@.subrange(
                lo as int,
                hi - 1,
            ));
            assert(v@.subrange(lo as int, hi as int).last() == v@[hi - 1]);
        }
        hi = hi - 1;
    }
    proof {
        if hi > lo {
            assert(trim_end_spec(v@.subrange(lo as int, hi as int)) =~= v@.subrange(
                lo as int,
                hi as int,
            ));
        } else {
            assert(v@.subrange(lo as int, hi as int) =~= Seq::<char>::empty());
        }
    }
    let mut r: Vec<char> = Vec::new();
    let mut i: usize = lo;
    while i < hi
        invariant
            lo <= i <= hi <= v@.len(),
            r@ == v@.subrange(lo as int, i as int),
        decreases hi - i,
    {
        r.push(v[i]);
        proof {
            assert(r@ =~= v@.subrange(lo as int, i + 1));
        }
        i = i + 1;
    }
    proof {
        assert(trim_spec(v@) == trim_end_spec(v@.subrange(lo as int, hi as int)));
    }
    r
}

/// Index of the first occurrence of `c` in `s`, or `s.len()` if there is none.
pub open spec fn find_ch(s: Seq<char>, c: char) -> int
    decreases s.len(),
{
    if s.len() == 0 {
        0
    } else if s[0] == c {
        0
    } else {
        1 + find_ch(s.drop_first(), c)
    }
}

/// `find_ch` stays within bounds and finds the character exactly.
pub proof fn lemma_find_ch(s: Seq<char>, c: char)
    ensures
        0 <= find_ch(s, c) <= s.len(),
        find_ch(s, c) < s.len() ==> s[find_ch(s, c)] == c,
        forall|j: int| 0 <= j < find_ch(s, c) ==> s[j] != c,
    decreases s.len(),
{
    if s.len() > 0 && s[0] != c {
        lemma_find_ch(s.drop_first(), c);
        assert forall|j: int| 0 <= j < find_ch(s, c) implies s[j] != c by {
            if j > 0 {
                assert(s.drop_first()[j - 1] == s[j]);
            }
        }
    }
}

/// Index of the first newline in `s`, or `s.len()` if there is none.
pub open spec fn find_nl(s: Seq<char>) -> int {
    find_ch(s, '\n')
}

/// `find_nl` stays within bounds and finds a newline exactly when one exists.
pub proof fn lemma_find_nl(s: Seq<char>)
    ensures
        0 <= find_nl(s) <= s.len(),
        find_nl(s) < s.len() ==> s[find_nl(s)] == '\n',
        forall|j: int| 0 <= j < find_nl(s) ==> s[j] != '\n',
{
    lemma_find_ch(s, '\n');
}

/// One line's content: a trailing carriage return is dropped, as `str::lines`
/// drops it.
pub open spec fn strip_cr(s: Seq<char>) -> Seq<char> {
    if s.len() > 0 && s.last() == '\r' {
        s.drop_last()
    } else {
        s
    }
}

/// The lines of a text, split on newlines, each without its line ending; a
/// trailing newline opens no further line.
pub open spec fn split_lines(s: Seq<char>) -> Seq<Seq<char>>
    decreases s.len(),
    via split_lines_decreases
{
    if s.len() == 0 {
        Seq::empty()
    } else {
        let j = find_nl(s);
        if j == s.len() {
            seq![strip_cr(s)]
        } else {
            seq![strip_cr(s.take(j))] + split_lines(s.skip(j + 1))
        }
    }
}

#[via_fn]
proof fn split_lines_decreases(s: Seq<char>) {
    lemma_find_nl(s);
}

/// The lines of a character vector, as `split_lines` gives them.
pub fn lines_of(v: &Vec<char>) -> (r: Vec<Vec<char>>)
    ensures
        r.deep_view() == split_lines(v@),
{
    let mut r: Vec<Vec<char>> = Vec::new();
    let mut start: usize = 0;
    proof {
        assert(v@.skip(0) =~= v@);
        assert(r.deep_view() + split_lines(v@) =~= split_lines(v@));
    }
    while start < v.len()
        invariant
            start <= v@.len(),
            split_lines(v@) == r.deep_view() + split_lines(v@.skip(start as int)),
        decreases v@.len() - start,
    {
        let ghost rest = v@.skip(start as int);
        let mut j: usize = start;
        while j < v.len() && v[j] != '\n'
            invariant
                start <= j <= v@.len(),
                forall|k: int| start <= k < j ==> v@[k] != '\n',
            decreases v@.len() - j,
        {
            j = j + 1;
        }
        proof {
            lemma_find_nl(rest);
            assert forall|k: int| 0 <= k < j - start implies rest[k] != '\n' by {
                assert(rest[k] == v@[start + k]);
            }
            if j < v@.len() {
                assert(rest[j - start] == v@[j as int]);
            }
            if find_nl(rest) < j - start {
                assert(rest[find_nl(rest)] == '\n');
                assert(false);
            }
            if find_nl(rest) > j - start {
                assert(j < v@.len());
                assert(rest[j - start] == '\n');
                assert(false);
            }
            assert(find_nl(rest) == j - start);
        }
        let stop: usize = if j > start && v[j - 1] == '\r' {
            j - 1
        } else {
            j
        };
        let mut line: Vec<char> = Vec::new();
        let mut i: usize = start;
        while i < stop
            invariant
                start <= i <= stop <= v@.len(),
                line@ == v@.subrange(start as int, i as int),
            decreases stop - i,
        {
            line.push(v[i]);
            proof {
                assert(line@ =~= v@.subrange(start as int, i + 1));
            }
            i = i + 1;
        }
        proof {
            assert(line@ =~= v@.subrange(start as int, stop as int));
            let content: Seq<char> = if j == v@.len() {
                rest
            } else {
                rest.take(j - start)
            };
            assert(rest.take(j - start) =~= v@.subrange(start as int, j as int));
            if j == v@.len() {
                assert(rest =~= v@.subrange(start as int, j as int));
            }
            assert(content =~= v@.subrange(start as int, j as int));
            if j > start && v@[j - 1] == '\r' {
                assert(content.last() == v@[j - 1]);
                assert(strip_cr(content) =~= v@.subrange(start as int, j - 1));
            } else {
                if content.len() > 0 {
                    assert(content.last() == v@[j - 1]);
                }
                assert(strip_cr(content) == content);
            }
            assert(line@ == strip_cr(content));
        }
        let ghost prev = r.deep_view();
        let ghost s0 = start as int;
        r.push(line);
        proof {
            assert(line.deep_view() =~= line@);
            assert(r.deep_view() =~= prev + seq![line@]);
        }
        if j < v.len() {
            start = j + 1;
            proof {
                assert(rest.len() > 0);
                assert(find_nl(rest) == j - s0);
                assert(split_lines(rest) == seq![strip_cr(rest.take(j - s0))] + split_lines(
                    rest.skip(j - s0 + 1),
                ));
                assert(rest.skip(j - s0 + 1) =~= v@.skip(start as int));
                assert(prev + (seq![line@] + split_lines(v@.skip(start as int))) =~= prev + seq![
                    line@,
                ] + split_lines(v@.skip(start as int)));
            }
        } else {
            start = j;
            proof {
                assert(rest.len() > 0);
                assert(find_nl(rest) == rest.len());
                assert(split_lines(rest) == seq![strip_cr(rest)]);
                assert(v@.skip(start as int) =~= Seq::<char>::empty());
                assert(prev + seq![line@] + split_lines(v@.skip(start as int)) =~= prev + seq![
                    line@,
                ]);
            }
        }
    }
    proof {
        assert(v@.skip(start as int) =~= Seq::<char>::empty());
        assert(r.deep_view() + split_lines(v@.skip(start as int)) =~= r.deep_view());
    }
    r
}

/// No escape byte occurs in the sequence.
pub open spec fn no_esc(s: Seq<char>) -> bool {
    forall|i: int| 0 <= i < s.len() ==> s[i] != '\u{1b}'
}

/// No newline occurs in the sequence.
pub open spec fn no_nl(s: Seq<char>) -> bool {
    forall|i: int| 0 <= i < s.len() ==> s[i] != '\n'
}

/// The text with ANSI styling sequences removed, scanning in state `in_esc`:
/// inside a styling sequence characters are dropped through the closing `m`.
pub open spec fn strip_ansi_from(s: Seq<char>, in_esc: bool) -> Seq<char>
    decreases s.len(),
{
    if s.len() == 0 {
        Seq::empty()
    } else if in_esc {
        strip_ansi_from(s.drop_first(), s[0] != 'm')
    } else if s[0] == '\u{1b}' {
        strip_ansi_from(s.drop_first(), true)
    } else {
        seq![s[0]] + strip_ansi_from(s.drop_first(), false)
    }
}

/// The text with ANSI styling sequences removed.
pub open spec fn strip_ansi(s: Seq<char>) -> Seq<char> {
    strip_ansi_from(s, false)
}

/// The scanning state after reading `s`, starting from state `st`.
pub open spec fn esc_state(s: Seq<char>, st: bool) -> bool
    decreases s.len(),
{
    if s.len() == 0 {
        st
    } else {
        esc_state(
            s.drop_first(),
            if st {
                s[0] != 'm'
            } else {
                s[0] == '\u{1b}'
            },
        )
    }
}

/// Stripping distributes over concatenation, threading the scanning state.
pub proof fn lemma_strip_concat(a: Seq<char>, b: Seq<char>, st: bool)
    ensures
        strip_ansi_from(a + b, st) == strip_ansi_from(a, st) + strip_ansi_from(b, esc_state(a, st)),
    decreases a.len(),
{
    if a.len() == 0 {
        assert(a + b =~= b);
        assert(strip_ansi_from(a, st) + strip_ansi_from(b, st) =~= strip_ansi_from(b, st));
    } else {
        assert((a + b).drop_first() =~= a.drop_first() + b);
        assert((a + b)[0] == a[0]);
        let st1 = if st {
            a[0] != 'm'
        } else {
            a[0] == '\u{1b}'
        };
        lemma_strip_concat(a.drop_first(), b, st1);
        if !st && a[0] != '\u{1b}' {
            assert(seq![a[0]] + (strip_ansi_from(a.drop_first(), false) + strip_ansi_from(
                b,
                esc_state(a, st),
            )) =~= (seq![a[0]] + strip_ansi_from(a.drop_first(), false)) + strip_ansi_from(
                b,
                esc_state(a, st),
            ));
        }
    }
}

/// Text without escape bytes strips to itself and leaves the scanner outside
/// any styling sequence.
pub proof fn lemma_strip_clean(s: Seq<char>)
    requires
        no_esc(s),
    ensures
        strip_ansi_from(s, false) == s,
        esc_state(s, false) == false,
    decreases s.len(),
{
    if s.len() > 0 {
        assert(forall|i: int| 0 <= i < s.drop_first().len() ==> s.drop_first()[i] == s[i + 1]);
        lemma_strip_clean(s.drop_first());
        assert(seq![s[0]] + s.drop_first() =~= s);
    }
}

/// The text with ANSI styling sequences removed.
pub fn strip_ansi_text(s: &str) -> (r: String)
    ensures
        r@ == strip_ansi(s@),
{
    let v = chars_of(s);
    let mut out = String::new();
    let mut in_esc = false;
    let mut i: usize = 0;
    proof {
        assert(s@.skip(0) =~= s@);
        assert(Seq::<char>::empty() + strip_ansi_from(s@, false) =~= strip_ansi_from(s@, false));
    }
    while i < v.len()
        invariant
            i <= v@.len(),
            v@ == s@,
            strip_ansi(s@) == out@ + strip_ansi_from(s@.skip(i as int), in_esc),
        decreases v@.len() - i,
    {
        proof {
            assert(s@.skip(i as int).drop_first() =~= s@.skip(i + 1));
            assert(s@.skip(i as int)[0] == s@[i as int]);
        }
        let c = v[i];
        if in_esc {
            in_esc = c != 'm';
        } else if c == '\u{1b}' {
            in_esc = true;
        } else {
            push_char(&mut out, c);
            proof {
                assert(out@ + strip_ansi_from(s@.skip(i + 1), false) =~= (out@.drop_last() + (seq![
                    s@[i as int],
                ] + strip_ansi_from(s@.skip(i + 1), false))));
            }
        }
        i = i + 1;
    }
    proof {
        assert(s@.skip(i as int).len() == 0);
        assert(out@ + strip_ansi_from(s@.skip(i as int), in_esc) =~= out@);
    }
    out
}

} // verus!
