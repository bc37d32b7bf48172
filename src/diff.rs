//! Line diff with move detection.
//!
//! Every line of both texts is classified once: lines equal at the same
//! position are unchanged; of the remaining lines, the `r`-th remaining old
//! occurrence of a key is paired with the `r`-th remaining new occurrence
//! (a move); what is left is removed (old side) or added (new side).

use vstd::prelude::*;
use crate::text::{chars_of, copy_chars, lines_of, same_chars, split_lines, squeeze, squeeze_chars, string_of, views};

verus! {

/// The category of a diff record.
#[derive(Clone, Copy, Debug, PartialEq, Eq, Structural)]
pub enum DiffType {
    Added,
    Removed,
    Moved,
    Unchanged,
}

/// Order of categories in the output.
pub open spec fn precedence(t: DiffType) -> int {
    match t {
        DiffType::Unchanged => 0,
        DiffType::Moved => 1,
        DiffType::Removed => 2,
        DiffType::Added => 3,
    }
}

/// One classified line, numbered from 1 in the text it is taken from.
#[derive(Clone, Debug)]
pub struct DiffResult {
    pub text: String,
    pub diff_type: DiffType,
    pub line_number: usize,
}

/// A record as plain values: text, category, line number.
pub type Record = (Seq<char>, DiffType, int);

pub open spec fn record_of(d: DiffResult) -> Record {
    (d.text@, d.diff_type, d.line_number as int)
}

pub open spec fn records(v: Seq<DiffResult>) -> Seq<Record> {
    v.map_values(|d: DiffResult| record_of(d))
}

/// The comparison key of a line.
pub open spec fn key_of(line: Seq<char>, ignore_ws: bool) -> Seq<char> {
    if ignore_ws {
        squeeze(line)
    } else {
        line
    }
}

pub open spec fn keys_of(lines: Seq<Seq<char>>, ignore_ws: bool) -> Seq<Seq<char>> {
    lines.map_values(|l: Seq<char>| key_of(l, ignore_ws))
}

/// Position `i` holds the same key on both sides.
pub open spec fn unchanged_at(a: Seq<Seq<char>>, b: Seq<Seq<char>>, i: int) -> bool {
    0 <= i < a.len() && i < b.len() && a[i] == b[i]
}

/// How many positions before `n` of side `a` hold key `k` and are not unchanged.
pub open spec fn free_before(a: Seq<Seq<char>>, b: Seq<Seq<char>>, k: Seq<char>, n: int) -> nat
    decreases n,
{
    if n <= 0 {
        0
    } else {
        free_before(a, b, k, n - 1) + if a[n - 1] == k && !unchanged_at(a, b, n - 1) {
            1nat
        } else {
            0nat
        }
    }
}

/// Position `i` of side `a` is not unchanged and finds a partner of the same
/// key on side `b`: its rank among the remaining occurrences of its key is
/// below the number of remaining occurrences on the other side.
pub open spec fn paired(a: Seq<Seq<char>>, b: Seq<Seq<char>>, i: int) -> bool {
    !unchanged_at(a, b, i) && free_before(a, b, a[i], i) < free_before(b, a, a[i], b.len() as int)
}

/// Records of `kind` for the lines among the first `n` that `keep` selects,
/// in ascending order of position.
pub open spec fn select(lines: Seq<Seq<char>>, keep: spec_fn(int) -> bool, kind: DiffType, n: int) -> Seq<Record>
    decreases n,
{
    if n <= 0 {
        Seq::<Record>::empty()
    } else {
        let s = select(lines, keep, kind, n - 1);
        if keep(n - 1) {
            s.push((lines[n - 1], kind, n))
        } else {
            s
        }
    }
}

pub open spec fn unchanged_part(old: Seq<Seq<char>>, new: Seq<Seq<char>>, ws: bool) -> Seq<Record> {
    let a = keys_of(old, ws);
    let b = keys_of(new, ws);
    select(old, |i: int| unchanged_at(a, b, i), DiffType::Unchanged, old.len() as int)
}

pub open spec fn moved_part(old: Seq<Seq<char>>, new: Seq<Seq<char>>, ws: bool) -> Seq<Record> {
    let a = keys_of(old, ws);
    let b = keys_of(new, ws);
    select(new, |j: int| paired(b, a, j), DiffType::Moved, new.len() as int)
}

pub open spec fn removed_part(old: Seq<Seq<char>>, new: Seq<Seq<char>>, ws: bool) -> Seq<Record> {
    let a = keys_of(old, ws);
    let b = keys_of(new, ws);
    select(old, |i: int| !unchanged_at(a, b, i) && !paired(a, b, i), DiffType::Removed, old.len() as int)
}

pub open spec fn added_part(old: Seq<Seq<char>>, new: Seq<Seq<char>>, ws: bool) -> Seq<Record> {
    let a = keys_of(old, ws);
    let b = keys_of(new, ws);
    select(new, |j: int| !unchanged_at(b, a, j) && !paired(b, a, j), DiffType::Added, new.len() as int)
}

/// The diff of two line sequences, in output order.
pub open spec fn diff_lines(old: Seq<Seq<char>>, new: Seq<Seq<char>>, ws: bool) -> Seq<Record> {
    unchanged_part(old, new, ws) + moved_part(old, new, ws) + removed_part(old, new, ws) + added_part(
        old,
        new,
        ws,
    )
}

/// Record `p` may stand before record `q` in a diff: a lower category, or the
/// same category and a lower line number.
pub open spec fn before(p: Record, q: Record) -> bool {
    precedence(p.1) < precedence(q.1) || (p.1 == q.1 && p.2 < q.2)
}

pub open spec fn ordered(s: Seq<Record>) -> bool {
    forall|i: int, j: int| 0 <= i < j < s.len() ==> before(#[trigger] s[i], #[trigger] s[j])
}

proof fn lemma_select_shape(lines: Seq<Seq<char>>, keep: spec_fn(int) -> bool, kind: DiffType, n: int)
    ensures
        ordered(select(lines, keep, kind, n)),
        forall|i: int| 0 <= i < select(lines, keep, kind, n).len() ==> (#[trigger] select(lines, keep, kind, n)[i]).1 == kind
            && 1 <= select(lines, keep, kind, n)[i].2 <= n,
    decreases n,
{
    if n > 0 {
        lemma_select_shape(lines, keep, kind, n - 1);
    }
}

proof fn lemma_ordered_concat(x: Seq<Record>, y: Seq<Record>)
    requires
        ordered(x),
        ordered(y),
        forall|i: int, j: int| 0 <= i < x.len() && 0 <= j < y.len() ==> before(#[trigger] x[i], #[trigger] y[j]),
    ensures
        ordered(x + y),
{
    assert forall|i: int, j: int| 0 <= i < j < (x + y).len() implies before(#[trigger] (x + y)[i], #[trigger] (x + y)[j]) by {
        if j < x.len() {
        } else if i >= x.len() {
            assert((x + y)[i] == y[i - x.len()]);
            assert((x + y)[j] == y[j - x.len()]);
        } else {
            assert((x + y)[j] == y[j - x.len()]);
        }
    }
}

/// The records of a diff come by category, unchanged before moved before
/// removed before added, and by ascending line number within a category.
pub proof fn lemma_diff_ordered(old: Seq<Seq<char>>, new: Seq<Seq<char>>, ws: bool)
    ensures
        ordered(diff_lines(old, new, ws)),
{
    let a = keys_of(old, ws);
    let b = keys_of(new, ws);
    let u = unchanged_part(old, new, ws);
    let m = moved_part(old, new, ws);
    let r = removed_part(old, new, ws);
    let d = added_part(old, new, ws);
    lemma_select_shape(old, |i: int| unchanged_at(a, b, i), DiffType::Unchanged, old.len() as int);
    lemma_select_shape(new, |j: int| paired(b, a, j), DiffType::Moved, new.len() as int);
    lemma_select_shape(old, |i: int| !unchanged_at(a, b, i) && !paired(a, b, i), DiffType::Removed, old.len() as int);
    lemma_select_shape(new, |j: int| !unchanged_at(b, a, j) && !paired(b, a, j), DiffType::Added, new.len() as int);
    lemma_ordered_concat(u, m);
    assert forall|i: int, j: int| 0 <= i < (u + m).len() && 0 <= j < r.len() implies before(#[trigger] (u + m)[i], #[trigger] r[j]) by {
        if i < u.len() {
            assert((u + m)[i] == u[i]);
        } else {
            assert((u + m)[i] == m[i - u.len()]);
        }
    }
    lemma_ordered_concat(u + m, r);
    assert forall|i: int, j: int| 0 <= i < (u + m + r).len() && 0 <= j < d.len() implies before(#[trigger] (u + m + r)[i], #[trigger] d[j]) by {
        if i < u.len() {
            assert((u + m + r)[i] == u[i]);
        } else if i < u.len() + m.len() {
            assert((u + m + r)[i] == m[i - u.len()]);
        } else {
            assert((u + m + r)[i] == r[i - u.len() - m.len()]);
        }
    }
    lemma_ordered_concat(u + m + r, d);
}

/// How many positions below `n` `keep` selects.
pub open spec fn count_keep(keep: spec_fn(int) -> bool, n: int) -> nat
    decreases n,
{
    if n <= 0 {
        0
    } else {
        count_keep(keep, n - 1) + if keep(n - 1) { 1nat } else { 0nat }
    }
}

proof fn lemma_select_len(lines: Seq<Seq<char>>, keep: spec_fn(int) -> bool, kind: DiffType, n: int)
    ensures
        select(lines, keep, kind, n).len() == count_keep(keep, n),
    decreases n,
{
    if n > 0 {
        lemma_select_len(lines, keep, kind, n - 1);
    }
}

proof fn lemma_count_partition(p: spec_fn(int) -> bool, q: spec_fn(int) -> bool, r: spec_fn(int) -> bool, n: int)
    requires
        n >= 0,
        forall|i: int| 0 <= i < n ==> #[trigger] p(i) as int + q(i) as int + r(i) as int == 1,
    ensures
        count_keep(p, n) + count_keep(q, n) + count_keep(r, n) == n,
    decreases n,
{
    if n > 0 {
        lemma_count_partition(p, q, r, n - 1);
        assert(p(n - 1) as int + q(n - 1) as int + r(n - 1) as int == 1);
    }
}

proof fn lemma_count_same(p: spec_fn(int) -> bool, q: spec_fn(int) -> bool, m: int, n: int)
    requires
        0 <= m <= n,
        forall|i: int| 0 <= i < m ==> #[trigger] p(i) == q(i),
        forall|i: int| m <= i < n ==> !#[trigger] p(i),
    ensures
        count_keep(p, n) == count_keep(q, m),
    decreases n,
{
    if n > m {
        lemma_count_same(p, q, m, n - 1);
    } else if n > 0 {
        lemma_count_same(p, q, m - 1, n - 1);
    }
}

/// How many positions below `n` of side `a` hold key `k` and are paired.
pub open spec fn key_paired(a: Seq<Seq<char>>, b: Seq<Seq<char>>, k: Seq<char>, n: int) -> nat
    decreases n,
{
    if n <= 0 {
        0
    } else {
        key_paired(a, b, k, n - 1) + if a[n - 1] == k && paired(a, b, n - 1) { 1nat } else { 0nat }
    }
}

/// Over the keys in `ks`, the sum of `key_paired`.
pub open spec fn keys_paired(a: Seq<Seq<char>>, b: Seq<Seq<char>>, ks: Seq<Seq<char>>, n: int) -> nat
    decreases ks.len(),
{
    if ks.len() == 0 {
        0
    } else {
        keys_paired(a, b, ks.drop_last(), n) + key_paired(a, b, ks.last(), n)
    }
}

/// Each key is paired as often as it remains on the side where it remains less often.
proof fn lemma_key_paired_min(a: Seq<Seq<char>>, b: Seq<Seq<char>>, k: Seq<char>, n: int)
    requires
        0 <= n <= a.len(),
    ensures
        key_paired(a, b, k, n) == if free_before(a, b, k, n) < free_before(b, a, k, b.len() as int) {
            free_before(a, b, k, n)
        } else {
            free_before(b, a, k, b.len() as int)
        },
    decreases n,
{
    if n > 0 {
        lemma_key_paired_min(a, b, k, n - 1);
    }
}

proof fn lemma_keys_paired_zero(a: Seq<Seq<char>>, b: Seq<Seq<char>>, ks: Seq<Seq<char>>)
    ensures
        keys_paired(a, b, ks, 0) == 0,
    decreases ks.len(),
{
    if ks.len() > 0 {
        lemma_keys_paired_zero(a, b, ks.drop_last());
    }
}

proof fn lemma_keys_paired_step(a: Seq<Seq<char>>, b: Seq<Seq<char>>, ks: Seq<Seq<char>>, n: int)
    requires
        1 <= n <= a.len(),
        ks.no_duplicates(),
    ensures
        keys_paired(a, b, ks, n) == keys_paired(a, b, ks, n - 1) + if ks.contains(a[n - 1]) && paired(a, b, n - 1) {
            1nat
        } else {
            0nat
        },
    decreases ks.len(),
{
    if ks.len() > 0 {
        let rest = ks.drop_last();
        assert(rest.no_duplicates());
        lemma_keys_paired_step(a, b, rest, n);
        assert(ks == rest.push(ks.last()));
        if rest.contains(a[n - 1]) {
            let w = choose|w: int| 0 <= w < rest.len() && rest[w] == a[n - 1];
            assert(ks[w] == rest[w]);
            assert(ks.last() != a[n - 1]);
        }
        if ks.contains(a[n - 1]) && !rest.contains(a[n - 1]) {
            let w = choose|w: int| 0 <= w < ks.len() && ks[w] == a[n - 1];
            if w < rest.len() {
                assert(rest[w] == a[n - 1]);
            }
        }
        if ks.last() == a[n - 1] {
            assert(ks[ks.len() - 1] == a[n - 1]);
        }
    }
}

/// Counting the paired positions key by key.
proof fn lemma_paired_by_keys(a: Seq<Seq<char>>, b: Seq<Seq<char>>, ks: Seq<Seq<char>>, n: int)
    requires
        0 <= n <= a.len(),
        ks.no_duplicates(),
        forall|i: int| 0 <= i < a.len() ==> ks.contains(#[trigger] a[i]),
    ensures
        count_keep(|i: int| paired(a, b, i), n) == keys_paired(a, b, ks, n),
    decreases n,
{
    if n == 0 {
        lemma_keys_paired_zero(a, b, ks);
    } else {
        lemma_paired_by_keys(a, b, ks, n - 1);
        lemma_keys_paired_step(a, b, ks, n);
        assert(ks.contains(a[n - 1]));
    }
}

proof fn lemma_keys_paired_symmetric(a: Seq<Seq<char>>, b: Seq<Seq<char>>, ks: Seq<Seq<char>>)
    ensures
        keys_paired(a, b, ks, a.len() as int) == keys_paired(b, a, ks, b.len() as int),
    decreases ks.len(),
{
    if ks.len() > 0 {
        lemma_keys_paired_symmetric(a, b, ks.drop_last());
        lemma_key_paired_min(a, b, ks.last(), a.len() as int);
        lemma_key_paired_min(b, a, ks.last(), b.len() as int);
    }
}

/// The distinct entries of `s`, in order of first appearance.
pub open spec fn distinct(s: Seq<Seq<char>>) -> Seq<Seq<char>>
    decreases s.len(),
{
    if s.len() == 0 {
        s
    } else {
        let d = distinct(s.drop_last());
        if d.contains(s.last()) {
            d
        } else {
            d.push(s.last())
        }
    }
}

proof fn lemma_distinct(s: Seq<Seq<char>>)
    ensures
        distinct(s).no_duplicates(),
        forall|i: int| 0 <= i < s.len() ==> distinct(s).contains(#[trigger] s[i]),
    decreases s.len(),
{
    if s.len() > 0 {
        let rest = s.drop_last();
        lemma_distinct(rest);
        let d = distinct(rest);
        assert forall|i: int| 0 <= i < s.len() implies distinct(s).contains(#[trigger] s[i]) by {
            if i < rest.len() {
                assert(rest[i] == s[i]);
                let w = choose|w: int| 0 <= w < d.len() && d[w] == rest[i];
                if !d.contains(s.last()) {
                    assert(d.push(s.last())[w] == s[i]);
                }
            } else {
                if !d.contains(s.last()) {
                    assert(d.push(s.last())[d.len() as int] == s[i]);
                }
            }
        }
    }
}

/// As many old lines as new lines take part in moves.
pub proof fn lemma_moves_balanced(a: Seq<Seq<char>>, b: Seq<Seq<char>>)
    ensures
        count_keep(|i: int| paired(a, b, i), a.len() as int) == count_keep(|j: int| paired(b, a, j), b.len() as int),
{
    let ks = distinct(a + b);
    lemma_distinct(a + b);
    assert forall|i: int| 0 <= i < a.len() implies ks.contains(#[trigger] a[i]) by {
        assert((a + b)[i] == a[i]);
    }
    assert forall|j: int| 0 <= j < b.len() implies ks.contains(#[trigger] b[j]) by {
        assert((a + b)[a.len() + j] == b[j]);
    }
    lemma_paired_by_keys(a, b, ks, a.len() as int);
    lemma_paired_by_keys(b, a, ks, b.len() as int);
    lemma_keys_paired_symmetric(a, b, ks);
}

/// Every line of both texts is reported in exactly one record, a matched
/// pair (an unchanged line, or a moved line with its old position) in one:
/// the diff has as many records as the two texts have lines, less the
/// matched pairs.
pub proof fn lemma_diff_coverage(old: Seq<Seq<char>>, new: Seq<Seq<char>>, ws: bool)
    ensures
        diff_lines(old, new, ws).len() == old.len() + new.len() - (unchanged_part(old, new, ws).len()
            + moved_part(old, new, ws).len()),
{
    let a = keys_of(old, ws);
    let b = keys_of(new, ws);
    let ua = |i: int| unchanged_at(a, b, i);
    let ub = |j: int| unchanged_at(b, a, j);
    let pa = |i: int| paired(a, b, i);
    let pb = |j: int| paired(b, a, j);
    let ra = |i: int| !unchanged_at(a, b, i) && !paired(a, b, i);
    let rb = |j: int| !unchanged_at(b, a, j) && !paired(b, a, j);
    lemma_select_len(old, ua, DiffType::Unchanged, old.len() as int);
    lemma_select_len(new, pb, DiffType::Moved, new.len() as int);
    lemma_select_len(old, ra, DiffType::Removed, old.len() as int);
    lemma_select_len(new, rb, DiffType::Added, new.len() as int);
    lemma_count_partition(ua, pa, ra, old.len() as int);
    lemma_count_partition(ub, pb, rb, new.len() as int);
    lemma_moves_balanced(a, b);
    let m = if old.len() < new.len() { old.len() as int } else { new.len() as int };
    lemma_count_same(ua, ub, m, old.len() as int);
    lemma_count_same(ub, ub, m, new.len() as int);
}

fn keys(lines: &Vec<Vec<char>>, ignore_ws: bool) -> (r: Vec<Vec<char>>)
    ensures
        r.len() == lines.len(),
        views(r@) == keys_of(views(lines@), ignore_ws),
{
    let mut r: Vec<Vec<char>> = Vec::new();
    for i in 0..lines.len()
        invariant
            r.len() == i,
            views(r@) == keys_of(views(lines@), ignore_ws).take(i as int),
    {
        let k = if ignore_ws {
            squeeze_chars(&lines[i])
        } else {
            copy_chars(&lines[i])
        };
        r.push(k);
        assert(views(r@) =~= keys_of(views(lines@), ignore_ws).take(i + 1));
    }
    assert(keys_of(views(lines@), ignore_ws).take(lines.len() as int) =~= keys_of(views(lines@), ignore_ws));
    r
}

fn unchanged_flags(a: &Vec<Vec<char>>, b: &Vec<Vec<char>>) -> (r: Vec<bool>)
    ensures
        r.len() == a.len(),
        forall|i: int| 0 <= i < a.len() ==> r[i] == unchanged_at(views(a@), views(b@), i),
{
    let mut r: Vec<bool> = Vec::new();
    for i in 0..a.len()
        invariant
            r.len() == i,
            forall|p: int| 0 <= p < i ==> r[p] == unchanged_at(views(a@), views(b@), p),
    {
        let same = i < b.len() && same_chars(&a[i], &b[i]);
        r.push(same);
    }
    r
}

fn count_free(a: &Vec<Vec<char>>, flags: &Vec<bool>, k: &Vec<char>, n: usize, Ghost(b): Ghost<Seq<Seq<char>>>) -> (r: usize)
    requires
        n <= a.len(),
        flags.len() == a.len(),
        forall|i: int| 0 <= i < a.len() ==> flags[i] == unchanged_at(views(a@), b, i),
    ensures
        r == free_before(views(a@), b, k@, n as int),
{
    let mut c: usize = 0;
    for p in 0..n
        invariant
            n <= a.len(),
            flags.len() == a.len(),
            forall|i: int| 0 <= i < a.len() ==> flags[i] == unchanged_at(views(a@), b, i),
            c <= p,
            c == free_before(views(a@), b, k@, p as int),
    {
        if !flags[p] && same_chars(&a[p], k) {
            c = c + 1;
        }
    }
    c
}

fn paired_flags(a: &Vec<Vec<char>>, fa: &Vec<bool>, b: &Vec<Vec<char>>, fb: &Vec<bool>) -> (r: Vec<bool>)
    requires
        fa.len() == a.len(),
        fb.len() == b.len(),
        forall|i: int| 0 <= i < a.len() ==> fa[i] == unchanged_at(views(a@), views(b@), i),
        forall|i: int| 0 <= i < b.len() ==> fb[i] == unchanged_at(views(b@), views(a@), i),
    ensures
        r.len() == a.len(),
        forall|i: int| 0 <= i < a.len() ==> r[i] == paired(views(a@), views(b@), i),
{
    let mut r: Vec<bool> = Vec::new();
    for i in 0..a.len()
        invariant
            fa.len() == a.len(),
            fb.len() == b.len(),
            forall|p: int| 0 <= p < a.len() ==> fa[p] == unchanged_at(views(a@), views(b@), p),
            forall|p: int| 0 <= p < b.len() ==> fb[p] == unchanged_at(views(b@), views(a@), p),
            r.len() == i,
            forall|p: int| 0 <= p < i ==> r[p] == paired(views(a@), views(b@), p),
    {
        let hit = if fa[i] {
            false
        } else {
            let rank = count_free(a, fa, &a[i], i, Ghost(views(b@)));
            let avail = count_free(b, fb, &a[i], b.len(), Ghost(views(a@)));
            rank < avail
        };
        r.push(hit);
    }
    r
}

fn emit(
    out: &mut Vec<DiffResult>,
    lines: &Vec<Vec<char>>,
    flags: &Vec<bool>,
    kind: DiffType,
    Ghost(keep): Ghost<spec_fn(int) -> bool>,
)
    requires
        flags.len() == lines.len(),
        forall|i: int| 0 <= i < lines.len() ==> flags[i] == keep(i),
    ensures
        records(final(out)@) == records(old(out)@) + select(views(lines@), keep, kind, lines.len() as int),
{
    let ghost start = records(out@);
    for i in 0..lines.len()
        invariant
            flags.len() == lines.len(),
            forall|p: int| 0 <= p < lines.len() ==> flags[p] == keep(p),
            records(out@) == start + select(views(lines@), keep, kind, i as int),
    {
        if flags[i] {
            let d = DiffResult { text: string_of(&lines[i]), diff_type: kind, line_number: i + 1 };
            let ghost prev = out@;
            out.push(d);
            assert(out@ == prev.push(d));
            assert(records(out@) =~= records(prev).push(record_of(d)));
            assert(views(lines@)[i as int] == lines@[i as int]@);
            assert(records(out@) =~= start + select(views(lines@), keep, kind, i + 1));
        }
    }
}

/// Classifies every line of `oldtext` and `newtext`, in output order:
/// unchanged, moved, removed, added, each by ascending line number.
pub fn compare_texts(oldtext: &str, newtext: &str, ignorewhitespace: bool) -> (r: Result<Vec<DiffResult>, String>)
    ensures
        r is Ok,
        records(r->Ok_0@) == diff_lines(lines_of(oldtext@), lines_of(newtext@), ignorewhitespace),
{
    let old_lines = split_lines(&chars_of(oldtext));
    let new_lines = split_lines(&chars_of(newtext));
    let ghost old = views(old_lines@);
    let ghost new = views(new_lines@);
    let ka = keys(&old_lines, ignorewhitespace);
    let kb = keys(&new_lines, ignorewhitespace);
    let ghost a = keys_of(old, ignorewhitespace);
    let ghost b = keys_of(new, ignorewhitespace);
    let ua = unchanged_flags(&ka, &kb);
    let ub = unchanged_flags(&kb, &ka);
    let pa = paired_flags(&ka, &ua, &kb, &ub);
    let pb = paired_flags(&kb, &ub, &ka, &ua);
    let mut removed: Vec<bool> = Vec::new();
    for i in 0..ka.len()
        invariant
            removed.len() == i,
            ua.len() == ka.len(),
            pa.len() == ka.len(),
            forall|p: int| 0 <= p < i ==> removed[p] == (!ua[p] && !pa[p]),
    {
        removed.push(!ua[i] && !pa[i]);
    }
    let mut added: Vec<bool> = Vec::new();
    for j in 0..kb.len()
        invariant
            added.len() == j,
            ub.len() == kb.len(),
            pb.len() == kb.len(),
            forall|p: int| 0 <= p < j ==> added[p] == (!ub[p] && !pb[p]),
    {
        added.push(!ub[j] && !pb[j]);
    }
    let mut out: Vec<DiffResult> = Vec::new();
    emit(&mut out, &old_lines, &ua, DiffType::Unchanged, Ghost(|i: int| unchanged_at(a, b, i)));
    emit(&mut out, &new_lines, &pb, DiffType::Moved, Ghost(|j: int| paired(b, a, j)));
    emit(
        &mut out,
        &old_lines,
        &removed,
        DiffType::Removed,
        Ghost(|i: int| !unchanged_at(a, b, i) && !paired(a, b, i)),
    );
    emit(
        &mut out,
        &new_lines,
        &added,
        DiffType::Added,
        Ghost(|j: int| !unchanged_at(b, a, j) && !paired(b, a, j)),
    );
    assert(records(out@) =~= diff_lines(old, new, ignorewhitespace));
    Ok(out)
}

} // verus!
