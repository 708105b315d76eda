//! Git status classification and upward propagation.
//!
//! A porcelain-style status report is parsed line by line; each line carries a
//! two-character code and a path relative to the working-tree root.  The code
//! is classified into one of five kinds, and each path's kind is propagated to
//! every ancestor directory up to (and including) the root under a priority
//! rule: a higher-priority kind overwrites a lower one, ties keep the first
//! assignment.

use crate::text::{
    chars_from, chars_of, lines_of, string_of, trim_chars, trim_spec, split_lines,
};
use vstd::prelude::*;

verus! {

/// Git status for a file or directory.
#[derive(Debug, Clone, Copy, PartialEq, Eq, Structural)]
pub enum GitStatus {
    Modified,
    Staged,
    Untracked,
    Ignored,
    Clean,
}

/// Priority of a status kind: higher values win during propagation.
pub open spec fn spec_git_status_priority(status: GitStatus) -> u8 {
    match status {
        GitStatus::Modified => 3,
        GitStatus::Staged => 2,
        GitStatus::Untracked => 1,
        GitStatus::Ignored => 0,
        GitStatus::Clean => 0,
    }
}

/// Get priority for git status (higher = more important).
pub fn git_status_priority(status: &GitStatus) -> (p: u8)
    ensures
        p == spec_git_status_priority(*status),
{
    match status {
        GitStatus::Modified => 3,
        GitStatus::Staged => 2,
        GitStatus::Untracked => 1,
        GitStatus::Ignored => 0,
        GitStatus::Clean => 0,
    }
}

/// Classification of a two-character status code, first match wins:
/// both untracked markers, both ignored markers, a working-tree-side
/// change, an index-side change, and otherwise clean.
pub open spec fn spec_classify(x: char, y: char) -> GitStatus {
    if x == '?' && y == '?' {
        GitStatus::Untracked
    } else if x == '!' && y == '!' {
        GitStatus::Ignored
    } else if y == 'M' || y == 'D' || y == 'A' {
        GitStatus::Modified
    } else if x == 'M' || x == 'A' || x == 'D' || x == 'R' || x == 'C' {
        GitStatus::Staged
    } else {
        GitStatus::Clean
    }
}

/// Classify the two status characters of one report line.  Total: every
/// pair of characters yields exactly one kind, unrecognized pairs degrade
/// to `Clean` so that a malformed report can never abort rendering.
pub fn classify_status(x: char, y: char) -> (s: GitStatus)
    ensures
        s == spec_classify(x, y),
{
    if x == '?' && y == '?' {
        GitStatus::Untracked
    } else if x == '!' && y == '!' {
        GitStatus::Ignored
    } else if y == 'M' || y == 'D' || y == 'A' {
        GitStatus::Modified
    } else if x == 'M' || x == 'A' || x == 'D' || x == 'R' || x == 'C' {
        GitStatus::Staged
    } else {
        GitStatus::Clean
    }
}

/// The association list read as a map, later pairs overriding earlier ones.
pub open spec fn assoc_map(s: Seq<(String, GitStatus)>) -> Map<Seq<char>, GitStatus>
    decreases s.len(),
{
    if s.len() == 0 {
        Map::empty()
    } else {
        assoc_map(s.drop_last()).insert(s.last().0@, s.last().1)
    }
}

/// Whether some pair of the list carries the key.
pub open spec fn assoc_has(s: Seq<(String, GitStatus)>, k: Seq<char>) -> bool {
    exists|i: int| 0 <= i < s.len() && s[i].0@ == k
}

/// Whether the keys of the list are pairwise distinct.
pub open spec fn assoc_unique(s: Seq<(String, GitStatus)>) -> bool {
    forall|i: int, j: int| 0 <= i < j < s.len() ==> s[i].0@ != s[j].0@
}

/// With distinct keys, the map contains exactly the listed keys, each bound
/// to its pair's status.
pub proof fn lemma_assoc_map(s: Seq<(String, GitStatus)>, k: Seq<char>)
    requires
        assoc_unique(s),
    ensures
        assoc_map(s).contains_key(k) == assoc_has(s, k),
        forall|i: int|
            0 <= i < s.len() && s[i].0@ == k ==> assoc_map(s).contains_key(k) && assoc_map(s)[k]
                == s[i].1,
    decreases s.len(),
{
    if s.len() > 0 {
        lemma_assoc_map(s.drop_last(), k);
        if s.last().0@ == k {
            assert(assoc_map(s)[k] == s.last().1);
            assert forall|i: int|
                0 <= i < s.len() && s[i].0@ == k implies assoc_map(s).contains_key(k) && assoc_map(
                s,
            )[k] == s[i].1 by {
                if i < s.len() - 1 {
                    assert(s[i].0@ != s.last().0@);
                }
            }
            assert(assoc_has(s, k));
        } else {
            if assoc_has(s, k) {
                let i = choose|i: int| 0 <= i < s.len() && s[i].0@ == k;
                assert(s.drop_last()[i] == s[i]);
                assert(assoc_has(s.drop_last(), k));
            }
            if assoc_has(s.drop_last(), k) {
                let i = choose|i: int| 0 <= i < s.drop_last().len() && s.drop_last()[i].0@ == k;
                assert(s[i].0@ == k);
            }
            assert forall|i: int|
                0 <= i < s.len() && s[i].0@ == k implies assoc_map(s).contains_key(k) && assoc_map(
                s,
            )[k] == s[i].1 by {
                assert(s.drop_last()[i] == s[i]);
            }
        }
    }
}

/// Mapping from root-relative paths to status kinds, with distinct keys.
/// Built once per resolution pass and read during rendering.
pub struct StatusMap {
    entries: Vec<(String, GitStatus)>,
}

impl StatusMap {
    /// The mapping this value holds.
    pub closed spec fn view(&self) -> Map<Seq<char>, GitStatus> {
        assoc_map(self.entries@)
    }

    /// The internal key list is duplicate-free.
    pub closed spec fn wf(&self) -> bool {
        assoc_unique(self.entries@)
    }

    /// An empty mapping.
    pub fn new() -> (m: StatusMap)
        ensures
            m@ == Map::<Seq<char>, GitStatus>::empty(),
            m.wf(),
    {
        StatusMap { entries: Vec::new() }
    }

    /// The status bound to a path, if any.
    pub fn get(&self, key: &String) -> (r: Option<GitStatus>)
        requires
            self.wf(),
        ensures
            r == spec_get(self@, key@),
    {
        let mut i: usize = 0;
        while i < self.entries.len()
            invariant
                i <= self.entries@.len(),
                self.wf(),
                forall|j: int| 0 <= j < i ==> self.entries@[j].0@ != key@,
            decreases self.entries@.len() - i,
        {
            if self.entries[i].0.eq(key) {
                proof {
                    lemma_assoc_map(self.entries@, key@);
                }
                return Some(self.entries[i].1);
            }
            i = i + 1;
        }
        proof {
            lemma_assoc_map(self.entries@, key@);
            if assoc_has(self.entries@, key@) {
                let i = choose|i: int|
                    0 <= i < self.entries@.len() && self.entries@[i].0@ == key@;
            }
        }
        None
    }

    /// Bind a path to a status, overwriting any earlier binding.
    pub fn set(&mut self, key: String, status: GitStatus)
        requires
            old(self).wf(),
        ensures
            final(self)@ == old(self)@.insert(key@, status),
            final(self).wf(),
    {
        let mut i: usize = 0;
        while i < self.entries.len()
            invariant
                i <= self.entries@.len(),
                self.wf(),
                self@ == old(self)@,
                self.entries@ == old(self).entries@,
                forall|j: int| 0 <= j < i ==> self.entries@[j].0@ != key@,
            decreases self.entries@.len() - i,
        {
            if self.entries[i].0.eq(&key) {
                let ghost pre = self.entries@;
                self.entries.set(i, (key, status));
                proof {
                    assert(self.entries@ =~= pre.update(i as int, (pre[i as int].0, status)).update(
                        i as int,
                        self.entries@[i as int],
                    ));
                    lemma_assoc_update(pre, i as int, self.entries@[i as int]);
                }
                return ;
            }
            i = i + 1;
        }
        let ghost pre = self.entries@;
        self.entries.push((key, status));
        proof {
            assert(self.entries@.drop_last() =~= pre);
            assert(forall|j: int|
                0 <= j < pre.len() ==> self.entries@[j] == pre[j]);
        }
    }
}

/// Updating one pair's status in place updates the map binding of its key.
proof fn lemma_assoc_update(s: Seq<(String, GitStatus)>, i: int, p: (String, GitStatus))
    requires
        assoc_unique(s),
        0 <= i < s.len(),
        p.0@ == s[i].0@,
    ensures
        assoc_unique(s.update(i, p)),
        assoc_map(s.update(i, p)) == assoc_map(s).insert(p.0@, p.1),
    decreases s.len(),
{
    let t = s.update(i, p);
    assert(forall|j: int| 0 <= j < s.len() && j != i ==> t[j] == s[j]);
    if i == s.len() - 1 {
        assert(t.drop_last() =~= s.drop_last());
        assert(assoc_map(t) =~= assoc_map(s).insert(p.0@, p.1));
    } else {
        assert(t.drop_last() =~= s.drop_last().update(i, p));
        assert(s.drop_last()[i] == s[i]);
        lemma_assoc_update(s.drop_last(), i, p);
        assert(t.last() == s.last());
        assert(assoc_map(t) == assoc_map(s.drop_last()).insert(p.0@, p.1).insert(
            s.last().0@,
            s.last().1,
        ));
        assert(s[i].0@ != s.last().0@);
        assert(assoc_map(s.drop_last()).insert(p.0@, p.1).insert(s.last().0@, s.last().1)
            =~= assoc_map(s.drop_last()).insert(s.last().0@, s.last().1).insert(p.0@, p.1));
    }
}

/// The status bound to a key, if the map holds one.
pub open spec fn spec_get(m: Map<Seq<char>, GitStatus>, k: Seq<char>) -> Option<GitStatus> {
    if m.contains_key(k) {
        Some(m[k])
    } else {
        None
    }
}

/// Index of the last `/` in a root-relative path, `-1` if there is none.
pub open spec fn last_slash(p: Seq<char>) -> int
    decreases p.len(),
{
    if p.len() == 0 {
        -1
    } else if p.last() == '/' {
        p.len() - 1
    } else {
        last_slash(p.drop_last())
    }
}

/// `last_slash` finds the last separator exactly.
pub proof fn lemma_last_slash(p: Seq<char>)
    ensures
        -1 <= last_slash(p) < p.len(),
        last_slash(p) >= 0 ==> p[last_slash(p)] == '/',
        forall|j: int| last_slash(p) < j < p.len() ==> p[j] != '/',
    decreases p.len(),
{
    if p.len() > 0 && p.last() != '/' {
        lemma_last_slash(p.drop_last());
        assert(forall|j: int| 0 <= j < p.len() - 1 ==> p.drop_last()[j] == p[j]);
    }
}

/// The parent directory of a root-relative path; the empty path stands for
/// the working-tree root itself.
pub open spec fn parent_of(p: Seq<char>) -> Seq<char> {
    if last_slash(p) < 0 {
        Seq::empty()
    } else {
        p.take(last_slash(p))
    }
}

/// The parent of a non-empty path is strictly shorter.
pub proof fn lemma_parent_shorter(p: Seq<char>)
    requires
        p.len() > 0,
    ensures
        parent_of(p).len() < p.len(),
{
    lemma_last_slash(p);
}

/// The parent directory of a path held as a character vector.
pub fn parent_chars(p: &Vec<char>) -> (r: Vec<char>)
    ensures
        r@ == parent_of(p@),
{
    let mut k: usize = p.len();
    while k > 0 && p[k - 1] != '/'
        invariant
            k <= p@.len(),
            forall|j: int| k <= j < p@.len() ==> p@[j] != '/',
        decreases k,
    {
        k = k - 1;
    }
    proof {
        lemma_last_slash(p@);
        if k == 0 {
            if last_slash(p@) >= 0 {
                assert(p@[last_slash(p@)] == '/');
            }
            assert(last_slash(p@) < 0);
        } else {
            assert(p@[k - 1] == '/');
            if last_slash(p@) < k - 1 {
                assert(false);
            }
            if last_slash(p@) > k - 1 {
                assert(p@[last_slash(p@)] != '/');
                assert(false);
            }
            assert(last_slash(p@) == k - 1);
        }
    }
    if k == 0 {
        Vec::new()
    } else {
        let mut r: Vec<char> = Vec::new();
        let mut i: usize = 0;
        while i < k - 1
            invariant
                i <= k - 1 < p@.len(),
                r@ == p@.take(i as int),
            decreases k - i,
        {
            r.push(p[i]);
            proof {
                assert(r@ =~= p@.take(i + 1));
            }
            i = i + 1;
        }
        r
    }
}

/// Bind `k` to `kind` only where it raises the priority: an absent key is
/// lower than anything, an equal priority keeps the first assignment.
pub open spec fn weak_update(
    acc: Map<Seq<char>, GitStatus>,
    k: Seq<char>,
    kind: GitStatus,
) -> Map<Seq<char>, GitStatus> {
    if !acc.contains_key(k) || spec_git_status_priority(kind) > spec_git_status_priority(acc[k]) {
        acc.insert(k, kind)
    } else {
        acc
    }
}

/// Walk from `p` up through every ancestor directory to the root (the empty
/// path, inclusive), weakly updating each with `kind`.
pub open spec fn propagate_up(
    acc: Map<Seq<char>, GitStatus>,
    p: Seq<char>,
    kind: GitStatus,
) -> Map<Seq<char>, GitStatus>
    decreases p.len(),
    via propagate_up_decreases
{
    if p.len() == 0 {
        acc
    } else {
        propagate_up(weak_update(acc, parent_of(p), kind), parent_of(p), kind)
    }
}

#[via_fn]
proof fn propagate_up_decreases(acc: Map<Seq<char>, GitStatus>, p: Seq<char>, kind: GitStatus) {
    if p.len() > 0 {
        lemma_parent_shorter(p);
    }
}

/// The effect of one report line on the accumulated map: lines shorter than
/// four characters are skipped; otherwise the path (the line past its
/// three-character code prefix, trimmed) is bound to the classified kind,
/// which is then propagated to the path's ancestors.
pub open spec fn process_line(
    acc: Map<Seq<char>, GitStatus>,
    line: Seq<char>,
) -> Map<Seq<char>, GitStatus> {
    if line.len() < 4 {
        acc
    } else {
        let kind = spec_classify(line[0], line[1]);
        let path = trim_spec(line.skip(3));
        propagate_up(acc.insert(path, kind), path, kind)
    }
}

/// The effect of a sequence of report lines, in order.
pub open spec fn process_lines(
    acc: Map<Seq<char>, GitStatus>,
    lines: Seq<Seq<char>>,
) -> Map<Seq<char>, GitStatus>
    decreases lines.len(),
{
    if lines.len() == 0 {
        acc
    } else {
        process_lines(process_line(acc, lines[0]), lines.drop_first())
    }
}

/// The status map a porcelain-style report text resolves to.
pub open spec fn resolve_spec(report: Seq<char>) -> Map<Seq<char>, GitStatus> {
    process_lines(Map::empty(), split_lines(report))
}

/// Whether `a` is a proper ancestor directory of `p` (the empty path, the
/// working-tree root, is an ancestor of every non-empty path).
pub open spec fn is_ancestor(a: Seq<char>, p: Seq<char>) -> bool
    decreases p.len(),
    via is_ancestor_decreases
{
    p.len() > 0 && (parent_of(p) == a || is_ancestor(a, parent_of(p)))
}

#[via_fn]
proof fn is_ancestor_decreases(a: Seq<char>, p: Seq<char>) {
    if p.len() > 0 {
        lemma_parent_shorter(p);
    }
}

/// An ancestor is strictly shorter than its descendant.
pub proof fn lemma_ancestor_shorter(a: Seq<char>, p: Seq<char>)
    requires
        is_ancestor(a, p),
    ensures
        a.len() < p.len(),
    decreases p.len(),
{
    lemma_parent_shorter(p);
    if parent_of(p) != a {
        lemma_ancestor_shorter(a, parent_of(p));
    }
}

/// The effect of one assignment: the path bound to its kind, the kind
/// propagated to every ancestor.
pub open spec fn apply_pair(
    acc: Map<Seq<char>, GitStatus>,
    p: Seq<char>,
    k: GitStatus,
) -> Map<Seq<char>, GitStatus> {
    propagate_up(acc.insert(p, k), p, k)
}

/// The effect of a sequence of assignments, in order.
pub open spec fn apply_pairs(
    acc: Map<Seq<char>, GitStatus>,
    ps: Seq<(Seq<char>, GitStatus)>,
) -> Map<Seq<char>, GitStatus>
    decreases ps.len(),
{
    if ps.len() == 0 {
        acc
    } else {
        apply_pairs(apply_pair(acc, ps[0].0, ps[0].1), ps.drop_first())
    }
}

/// Propagation acts on the ancestors of the path alone: each is weakly
/// raised to the propagated kind, every other binding is untouched.
proof fn lemma_propagate_up_at(
    acc: Map<Seq<char>, GitStatus>,
    p: Seq<char>,
    k: GitStatus,
    q: Seq<char>,
)
    ensures
        is_ancestor(q, p) ==> spec_get(propagate_up(acc, p, k), q) == weak_opt(
            spec_get(acc, q),
            k,
        ),
        !is_ancestor(q, p) ==> spec_get(propagate_up(acc, p, k), q) == spec_get(acc, q),
    decreases p.len(),
{
    if p.len() > 0 {
        let par = parent_of(p);
        let acc2 = weak_update(acc, par, k);
        lemma_parent_shorter(p);
        lemma_propagate_up_at(acc2, par, k, q);
        if q == par {
            if is_ancestor(q, par) {
                lemma_ancestor_shorter(q, par);
                assert(false);
            }
            assert(spec_get(acc2, q) == weak_opt(spec_get(acc, q), k));
        } else {
            assert(spec_get(acc2, q) == spec_get(acc, q));
        }
    }
}

/// An absent binding is raised to the kind; a present one only where the
/// kind's priority is strictly greater.
pub open spec fn weak_opt(cur: Option<GitStatus>, k: GitStatus) -> Option<GitStatus> {
    match cur {
        None => Some(k),
        Some(v) => if spec_git_status_priority(k) > spec_git_status_priority(v) {
            Some(k)
        } else {
            Some(v)
        },
    }
}

/// The binding an ancestor accumulates from the assignments, in order.
pub open spec fn anc_fold(
    cur: Option<GitStatus>,
    ps: Seq<(Seq<char>, GitStatus)>,
    a: Seq<char>,
) -> Option<GitStatus>
    decreases ps.len(),
{
    if ps.len() == 0 {
        cur
    } else {
        anc_fold(
            if is_ancestor(a, ps[0].0) {
                weak_opt(cur, ps[0].1)
            } else {
                cur
            },
            ps.drop_first(),
            a,
        )
    }
}

/// A path never assigned directly ends with exactly what its descendants'
/// assignments fold to.
proof fn lemma_apply_pairs_at(
    acc: Map<Seq<char>, GitStatus>,
    ps: Seq<(Seq<char>, GitStatus)>,
    a: Seq<char>,
)
    requires
        forall|i: int| 0 <= i < ps.len() ==> (#[trigger] ps[i]).0 != a,
    ensures
        spec_get(apply_pairs(acc, ps), a) == anc_fold(spec_get(acc, a), ps, a),
    decreases ps.len(),
{
    if ps.len() > 0 {
        let p = ps[0].0;
        let k = ps[0].1;
        let acc1 = apply_pair(acc, p, k);
        assert(forall|i: int|
            0 <= i < ps.drop_first().len() ==> (#[trigger] ps.drop_first()[i]) == ps[i + 1]);
        lemma_apply_pairs_at(acc1, ps.drop_first(), a);
        lemma_propagate_up_at(acc.insert(p, k), p, k, a);
        assert(p != a);
        assert(spec_get(acc.insert(p, k), a) == spec_get(acc, a));
    }
}

/// Whether some assignment lies strictly below the path.
pub open spec fn has_descendant(ps: Seq<(Seq<char>, GitStatus)>, a: Seq<char>) -> bool {
    exists|i: int| 0 <= i < ps.len() && is_ancestor(a, (#[trigger] ps[i]).0)
}

/// The greatest priority among the assignments strictly below the path,
/// `-1` where there is none.
pub open spec fn max_prio(ps: Seq<(Seq<char>, GitStatus)>, a: Seq<char>) -> int
    decreases ps.len(),
{
    if ps.len() == 0 {
        -1
    } else {
        let rest = max_prio(ps.drop_last(), a);
        if is_ancestor(a, ps.last().0) && spec_git_status_priority(ps.last().1) as int > rest {
            spec_git_status_priority(ps.last().1) as int
        } else {
            rest
        }
    }
}

/// The kind of the first assignment strictly below the path whose priority
/// exceeds the bound and reaches the greatest priority.
pub open spec fn first_over(
    ps: Seq<(Seq<char>, GitStatus)>,
    a: Seq<char>,
    bound: int,
) -> Option<GitStatus>
    decreases ps.len(),
{
    if ps.len() == 0 {
        None
    } else if is_ancestor(a, ps[0].0) && spec_git_status_priority(ps[0].1) as int > bound
        && spec_git_status_priority(ps[0].1) as int == max_prio(ps, a) {
        Some(ps[0].1)
    } else {
        first_over(ps.drop_first(), a, bound)
    }
}

/// The kind of the first assignment strictly below the path that reaches
/// the greatest priority.
pub open spec fn first_max(ps: Seq<(Seq<char>, GitStatus)>, a: Seq<char>) -> Option<GitStatus> {
    first_over(ps, a, -1)
}

/// The greatest priority is `-1` exactly when no assignment lies below.
proof fn lemma_max_prio_bounds(ps: Seq<(Seq<char>, GitStatus)>, a: Seq<char>)
    ensures
        -1 <= max_prio(ps, a) <= 3,
        has_descendant(ps, a) <==> max_prio(ps, a) >= 0,
    decreases ps.len(),
{
    if ps.len() > 0 {
        lemma_max_prio_bounds(ps.drop_last(), a);
        if is_ancestor(a, ps.last().0) {
            assert(has_descendant(ps, a));
        }
        if has_descendant(ps, a) && !is_ancestor(a, ps.last().0) {
            let i = choose|i: int| 0 <= i < ps.len() && is_ancestor(a, (#[trigger] ps[i]).0);
            assert(i < ps.len() - 1);
            assert(ps.drop_last()[i] == ps[i]);
            assert(has_descendant(ps.drop_last(), a));
        }
        if has_descendant(ps.drop_last(), a) {
            let i = choose|i: int|
                0 <= i < ps.drop_last().len() && is_ancestor(a, (#[trigger] ps.drop_last()[i]).0);
            assert(ps[i] == ps.drop_last()[i]);
            assert(has_descendant(ps, a));
        }
    }
}

/// Dropping the head relates the greatest priorities.
proof fn lemma_max_prio_head(ps: Seq<(Seq<char>, GitStatus)>, a: Seq<char>)
    requires
        ps.len() > 0,
    ensures
        max_prio(ps, a) == (if is_ancestor(a, ps[0].0) && spec_git_status_priority(ps[0].1) as int
            > max_prio(ps.drop_first(), a) {
            spec_git_status_priority(ps[0].1) as int
        } else {
            max_prio(ps.drop_first(), a)
        }),
    decreases ps.len(),
{
    let tl = ps.drop_first();
    if ps.len() == 1 {
        assert(tl.len() == 0);
        assert(ps.drop_last().len() == 0);
        assert(ps.last() == ps[0]);
        assert(max_prio(tl, a) == -1);
        assert(max_prio(ps.drop_last(), a) == -1);
        assert(spec_git_status_priority(ps[0].1) as int >= 0);
        assert(max_prio(ps, a) == (if is_ancestor(a, ps.last().0)
            && spec_git_status_priority(ps.last().1) as int > -1 {
            spec_git_status_priority(ps.last().1) as int
        } else {
            -1
        }));
    } else {
        let dl = ps.drop_last();
        assert(dl.len() > 0);
        assert(dl[0] == ps[0]);
        lemma_max_prio_head(dl, a);
        assert(dl.drop_first() =~= tl.drop_last());
        assert(tl.last() == ps.last());
        assert(tl.len() > 0);
        let ph = spec_git_status_priority(ps[0].1) as int;
        let pl = spec_git_status_priority(ps.last().1) as int;
        let inner = max_prio(tl.drop_last(), a);
        assert(max_prio(dl, a) == (if is_ancestor(a, ps[0].0) && ph > inner {
            ph
        } else {
            inner
        }));
        assert(max_prio(ps, a) == (if is_ancestor(a, ps.last().0) && pl > max_prio(dl, a) {
            pl
        } else {
            max_prio(dl, a)
        }));
        assert(max_prio(tl, a) == (if is_ancestor(a, tl.last().0) && pl > inner {
            pl
        } else {
            inner
        }));
        if is_ancestor(a, ps[0].0) && ph > max_prio(tl, a) {
            assert(max_prio(ps, a) == ph);
        } else {
            assert(max_prio(ps, a) == max_prio(tl, a));
        }
    }
}

/// Whether the head contributes relates descendant facts.
proof fn lemma_descendant_head(ps: Seq<(Seq<char>, GitStatus)>, a: Seq<char>)
    requires
        ps.len() > 0,
    ensures
        has_descendant(ps, a) == (is_ancestor(a, ps[0].0) || has_descendant(ps.drop_first(), a)),
{
    let tl = ps.drop_first();
    assert(forall|i: int| 0 <= i < tl.len() ==> (#[trigger] tl[i]) == ps[i + 1]);
    if has_descendant(ps, a) {
        let i = choose|i: int| 0 <= i < ps.len() && is_ancestor(a, (#[trigger] ps[i]).0);
        if i > 0 {
            assert(tl[i - 1] == ps[i]);
            assert(has_descendant(tl, a));
        }
    }
    if has_descendant(tl, a) {
        let i = choose|i: int| 0 <= i < tl.len() && is_ancestor(a, (#[trigger] tl[i]).0);
        assert(ps[i + 1] == tl[i]);
        assert(has_descendant(ps, a));
    }
}

/// A greatest priority above the bound is reached by some assignment.
proof fn lemma_first_over_some(ps: Seq<(Seq<char>, GitStatus)>, a: Seq<char>, b: int)
    requires
        b >= -1,
        max_prio(ps, a) > b,
    ensures
        first_over(ps, a, b) is Some,
        spec_git_status_priority(first_over(ps, a, b).unwrap()) as int == max_prio(ps, a),
    decreases ps.len(),
{
    lemma_max_prio_bounds(ps, a);
    if ps.len() > 0 {
        let hd = ps[0];
        let tl = ps.drop_first();
        let ph = spec_git_status_priority(hd.1) as int;
        lemma_max_prio_head(ps, a);
        if !(is_ancestor(a, hd.0) && ph > b && ph == max_prio(ps, a)) {
            assert(max_prio(tl, a) == max_prio(ps, a));
            lemma_first_over_some(tl, a, b);
        }
    }
}

/// Below the greatest priority, the bound does not matter.
proof fn lemma_first_over_bound(ps: Seq<(Seq<char>, GitStatus)>, a: Seq<char>, b1: int, b2: int)
    requires
        b1 < max_prio(ps, a),
        b2 < max_prio(ps, a),
    ensures
        first_over(ps, a, b1) == first_over(ps, a, b2),
    decreases ps.len(),
{
    if ps.len() > 0 {
        let hd = ps[0];
        let tl = ps.drop_first();
        lemma_max_prio_head(ps, a);
        let taken = is_ancestor(a, hd.0) && spec_git_status_priority(hd.1) as int == max_prio(
            ps,
            a,
        );
        if !taken {
            assert(max_prio(tl, a) == max_prio(ps, a));
            lemma_first_over_bound(tl, a, b1, b2);
        }
    }
}

/// The fold equals the first assignment of greatest priority above the
/// starting point: a strictly higher priority overwrites, a tie keeps the
/// earlier assignment.
proof fn lemma_anc_fold_max(cur: Option<GitStatus>, ps: Seq<(Seq<char>, GitStatus)>, a: Seq<char>)
    ensures
        cur is None ==> (anc_fold(cur, ps, a) is Some <==> has_descendant(ps, a)),
        cur is None && has_descendant(ps, a) ==> anc_fold(cur, ps, a) == first_max(ps, a),
        cur matches Some(v) ==> anc_fold(cur, ps, a) == (if max_prio(ps, a)
            > spec_git_status_priority(v) as int {
            first_over(ps, a, spec_git_status_priority(v) as int)
        } else {
            Some(v)
        }),
    decreases ps.len(),
{
    lemma_max_prio_bounds(ps, a);
    if ps.len() > 0 {
        let hd = ps[0];
        let tl = ps.drop_first();
        let ph = spec_git_status_priority(hd.1) as int;
        lemma_max_prio_head(ps, a);
        lemma_descendant_head(ps, a);
        lemma_max_prio_bounds(tl, a);
        match cur {
            None => {
                if is_ancestor(a, hd.0) {
                    lemma_anc_fold_max(Some(hd.1), tl, a);
                    if max_prio(tl, a) > ph {
                        lemma_first_over_bound(tl, a, -1, ph);
                        lemma_first_over_some(tl, a, ph);
                    }
                } else {
                    lemma_anc_fold_max(cur, tl, a);
                }
            },
            Some(v) => {
                let pv = spec_git_status_priority(v) as int;
                if is_ancestor(a, hd.0) {
                    if ph > pv {
                        lemma_anc_fold_max(Some(hd.1), tl, a);
                        if max_prio(tl, a) > ph {
                            lemma_first_over_bound(tl, a, pv, ph);
                            lemma_first_over_some(tl, a, ph);
                        }
                    } else {
                        lemma_anc_fold_max(Some(v), tl, a);
                    }
                } else {
                    lemma_anc_fold_max(Some(v), tl, a);
                }
            },
        }
    }
}

/// The assignment parsed from one report line, if the line carries one.
pub open spec fn line_pair(line: Seq<char>) -> Option<(Seq<char>, GitStatus)> {
    if line.len() < 4 {
        None
    } else {
        Some((trim_spec(line.skip(3)), spec_classify(line[0], line[1])))
    }
}

/// The assignments parsed from the report lines, in order.
pub open spec fn pairs_of_lines(lines: Seq<Seq<char>>) -> Seq<(Seq<char>, GitStatus)>
    decreases lines.len(),
{
    if lines.len() == 0 {
        Seq::empty()
    } else {
        (match line_pair(lines[0]) {
            Some(pr) => seq![pr],
            None => Seq::empty(),
        }) + pairs_of_lines(lines.drop_first())
    }
}

/// Processing the lines is applying their parsed assignments.
proof fn lemma_process_lines_pairs(acc: Map<Seq<char>, GitStatus>, lines: Seq<Seq<char>>)
    ensures
        process_lines(acc, lines) == apply_pairs(acc, pairs_of_lines(lines)),
    decreases lines.len(),
{
    if lines.len() > 0 {
        let l = lines[0];
        let tl = lines.drop_first();
        match line_pair(l) {
            Some(pr) => {
                assert(process_line(acc, l) == apply_pair(acc, pr.0, pr.1));
                lemma_process_lines_pairs(apply_pair(acc, pr.0, pr.1), tl);
                assert(pairs_of_lines(lines)[0] == pr);
                assert(pairs_of_lines(lines).drop_first() =~= pairs_of_lines(tl));
            },
            None => {
                assert(process_line(acc, l) == acc);
                lemma_process_lines_pairs(acc, tl);
                assert(pairs_of_lines(lines) =~= pairs_of_lines(tl));
            },
        }
    }
}

/// Priority propagation: a path that no report line assigns directly is in
/// the resolved map exactly when some assignment lies strictly below it;
/// its kind then has the greatest priority among those assignments, and is
/// the kind of the first assignment that reaches that priority.  Paths with
/// no status-carrying descendants stay absent.
pub proof fn lemma_resolve_propagation(report: Seq<char>, a: Seq<char>)
    requires
        forall|i: int|
            0 <= i < pairs_of_lines(split_lines(report)).len() ==> (#[trigger] pairs_of_lines(
                split_lines(report),
            )[i]).0 != a,
    ensures
        resolve_spec(report).contains_key(a) == has_descendant(
            pairs_of_lines(split_lines(report)),
            a,
        ),
        has_descendant(pairs_of_lines(split_lines(report)), a) ==> spec_git_status_priority(
            resolve_spec(report)[a],
        ) as int == max_prio(pairs_of_lines(split_lines(report)), a),
        has_descendant(pairs_of_lines(split_lines(report)), a) ==> Some(resolve_spec(report)[a])
            == first_max(pairs_of_lines(split_lines(report)), a),
{
    let ps = pairs_of_lines(split_lines(report));
    lemma_process_lines_pairs(Map::empty(), split_lines(report));
    lemma_apply_pairs_at(Map::empty(), ps, a);
    lemma_anc_fold_max(None, ps, a);
    lemma_max_prio_bounds(ps, a);
    if has_descendant(ps, a) {
        lemma_first_max_prio(ps, a);
    }
}

/// The first assignment reaching the greatest priority carries it.
proof fn lemma_first_max_prio(ps: Seq<(Seq<char>, GitStatus)>, a: Seq<char>)
    requires
        has_descendant(ps, a),
    ensures
        first_max(ps, a) is Some,
        spec_git_status_priority(first_max(ps, a).unwrap()) as int == max_prio(ps, a),
    decreases ps.len(),
{
    lemma_max_prio_bounds(ps, a);
    if ps.len() > 0 {
        let hd = ps[0];
        let tl = ps.drop_first();
        let ph = spec_git_status_priority(hd.1) as int;
        lemma_max_prio_head(ps, a);
        lemma_descendant_head(ps, a);
        lemma_max_prio_bounds(tl, a);
        if !(is_ancestor(a, hd.0) && ph > -1 && ph == max_prio(ps, a)) {
            assert(has_descendant(tl, a)) by {
                if is_ancestor(a, hd.0) && !has_descendant(tl, a) {
                    assert(max_prio(tl, a) == -1);
                    assert(max_prio(ps, a) == ph);
                    assert(false);
                }
            }
            lemma_first_max_prio(tl, a);
            assert(max_prio(tl, a) == max_prio(ps, a));
        }
    }
}

/// Re-resolving an unchanged report yields an identical status map: the
/// resolution is a function of the report text alone.
pub proof fn lemma_resolve_idempotent(
    m1: Map<Seq<char>, GitStatus>,
    m2: Map<Seq<char>, GitStatus>,
    report: Seq<char>,
)
    requires
        m1 == resolve_spec(report),
        m2 == resolve_spec(report),
    ensures
        m1 == m2,
{
}

/// Classification is total and deterministic: every pair of status
/// characters maps to exactly one of the five kinds.
pub proof fn lemma_classification_total(x: char, y: char)
    ensures
        spec_classify(x, y) is Untracked || spec_classify(x, y) is Ignored || spec_classify(
            x,
            y,
        ) is Modified || spec_classify(x, y) is Staged || spec_classify(x, y) is Clean,
{
}

impl StatusMap {
    /// Bind `key` to `kind` only where it raises the priority.
    fn weak_set(&mut self, key: String, kind: GitStatus)
        requires
            old(self).wf(),
        ensures
            final(self)@ == weak_update(old(self)@, key@, kind),
            final(self).wf(),
    {
        let should = match self.get(&key) {
            None => true,
            Some(existing) => git_status_priority(&kind) > git_status_priority(&existing),
        };
        if should {
            self.set(key, kind);
        }
    }
}

/// Resolve a full status report: classify each line, bind its path, and
/// propagate each kind to every ancestor directory up to the root.
pub fn resolve_statuses(report: &str) -> (m: StatusMap)
    ensures
        m.wf(),
        m@ == resolve_spec(report@),
{
    let chars = chars_of(report);
    let lines = lines_of(&chars);
    let mut m = StatusMap::new();
    let ghost all = split_lines(report@);
    let mut li: usize = 0;
    proof {
        assert(all.skip(0) =~= all);
    }
    while li < lines.len()
        invariant
            li <= lines@.len(),
            lines.deep_view() == all,
            m.wf(),
            resolve_spec(report@) == process_lines(m@, all.skip(li as int)),
        decreases lines@.len() - li,
    {
        let line = &lines[li];
        let ghost lv = line@;
        proof {
            assert(lv == all[li as int]);
            assert(all.skip(li as int)[0] == all[li as int]);
            assert(all.skip(li as int).drop_first() =~= all.skip(li + 1));
        }
        let ghost acc0 = m@;
        if line.len() >= 4 {
            let kind = classify_status(line[0], line[1]);
            let tail = chars_from(line, 3);
            let path = trim_chars(&tail);
            let ghost pv = path@;
            let key = string_of(&path);
            m.set(key, kind);
            let ghost target = propagate_up(m@, pv, kind);
            proof {
                assert(target == process_line(acc0, lv));
            }
            let mut cur = path;
            while cur.len() > 0
                invariant
                    m.wf(),
                    propagate_up(m@, cur@, kind) == target,
                decreases cur@.len(),
            {
                let par = parent_chars(&cur);
                proof {
                    lemma_parent_shorter(cur@);
                }
                let par_key = string_of(&par);
                m.weak_set(par_key, kind);
                cur = par;
            }
            proof {
                assert(m@ == target);
            }
        }
        proof {
            assert(m@ == process_line(acc0, lv));
        }
        li = li + 1;
    }
    proof {
        assert(all.skip(li as int).len() == 0);
    }
    m
}

} // verus!
