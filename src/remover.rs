//! Removing lines: duplicates by key, or lines that match or do not match
//! a pattern.

use vstd::prelude::*;
use crate::pattern::{contains, contains_chars, lower_chars, lower_of, regex_compiles, regex_is_match_of};
use crate::processor::{case_pattern, compile_with_case, is_word, ProcessedText, TextProcessor};
use crate::text::{chars_of, copy_chars, join, join_chars, lines_of, same_chars, split_lines, string_of, trim, trim_chars, views};

verus! {

/// The entries at the positions below `n` that `keep` selects, in order.
pub open spec fn kept_where(lines: Seq<Seq<char>>, keep: spec_fn(int) -> bool, n: int) -> Seq<Seq<char>>
    decreases n,
{
    if n <= 0 {
        Seq::<Seq<char>>::empty()
    } else if keep(n - 1) {
        kept_where(lines, keep, n - 1).push(lines[n - 1])
    } else {
        kept_where(lines, keep, n - 1)
    }
}

/// A line as compared for duplicates: trimmed where `trimparts` is set.
pub open spec fn processed_line(l: Seq<char>, trimparts: bool) -> Seq<char> {
    if trimparts {
        trim(l)
    } else {
        l
    }
}

/// The key that decides whether two lines are duplicates.
pub open spec fn dedup_key(l: Seq<char>, casesensitive: bool, trimparts: bool) -> Seq<char> {
    if casesensitive {
        processed_line(l, trimparts)
    } else {
        lower_of(processed_line(l, trimparts))
    }
}

/// No earlier position holds the same key.
pub open spec fn first_seen(keys: Seq<Seq<char>>, i: int) -> bool {
    forall|j: int| 0 <= j < i ==> keys[j] != keys[i]
}

/// The first line of every key, processed, in order.
pub open spec fn dedup_lines(lines: Seq<Seq<char>>, casesensitive: bool, trimparts: bool) -> Seq<Seq<char>> {
    keep_first(
        lines.map_values(|l: Seq<char>| processed_line(l, trimparts)),
        lines.map_values(|l: Seq<char>| dedup_key(l, casesensitive, trimparts)),
    )
}

/// The entries whose key (at the same position of `keys`) appears at no
/// earlier position.
pub open spec fn keep_first(lines: Seq<Seq<char>>, keys: Seq<Seq<char>>) -> Seq<Seq<char>> {
    kept_where(lines, |i: int| first_seen(keys, i), lines.len() as int)
}

/// The entries whose match result (at the same position of `hits`) is `keep_matching`.
pub open spec fn keep_by_hits(lines: Seq<Seq<char>>, hits: Seq<bool>, keep_matching: bool) -> Seq<Seq<char>> {
    keep_by_hits_upto(lines, hits, keep_matching, lines.len() as int)
}

/// `keep_by_hits` over the positions below `n`.
pub open spec fn keep_by_hits_upto(lines: Seq<Seq<char>>, hits: Seq<bool>, keep_matching: bool, n: int) -> Seq<Seq<char>>
    decreases n,
{
    if n <= 0 {
        Seq::<Seq<char>>::empty()
    } else if hits[n - 1] == keep_matching {
        keep_by_hits_upto(lines, hits, keep_matching, n - 1).push(lines[n - 1])
    } else {
        keep_by_hits_upto(lines, hits, keep_matching, n - 1)
    }
}

/// Whether a line matches the pattern: as a regular expression, or as a
/// literal substring, compared in lowercase where case is ignored.
pub open spec fn line_matches(line: Seq<char>, p: Seq<char>, casesensitive: bool, useregex: bool) -> bool {
    if useregex {
        regex_is_match_of(case_pattern(p, casesensitive), line)
    } else if casesensitive {
        contains(line, p)
    } else {
        contains(lower_of(line), lower_of(p))
    }
}

/// The lines that match (`keep_matching`) or that do not.
pub open spec fn match_lines(
    lines: Seq<Seq<char>>,
    p: Seq<char>,
    keep_matching: bool,
    casesensitive: bool,
    useregex: bool,
) -> Seq<Seq<char>> {
    keep_by_hits(lines, lines.map_values(|l: Seq<char>| line_matches(l, p, casesensitive, useregex)), keep_matching)
}

/// The lines that `remove_lines_internal` keeps.
pub open spec fn remaining_lines(
    text: Seq<char>,
    p: Seq<char>,
    mode: Seq<char>,
    casesensitive: bool,
    useregex: bool,
    trimparts: bool,
) -> Seq<Seq<char>> {
    if mode == "duplicates"@ {
        dedup_lines(lines_of(text), casesensitive, trimparts)
    } else {
        match_lines(lines_of(text), p, mode == "containing"@, casesensitive, useregex)
    }
}

proof fn lemma_kept_len(lines: Seq<Seq<char>>, keep: spec_fn(int) -> bool, n: int)
    ensures
        kept_where(lines, keep, n).len() <= if n < 0 { 0 } else { n },
    decreases n,
{
    if n > 0 {
        lemma_kept_len(lines, keep, n - 1);
    }
}

proof fn lemma_keep_by_hits_len(lines: Seq<Seq<char>>, hits: Seq<bool>, keep_matching: bool, n: int)
    ensures
        keep_by_hits_upto(lines, hits, keep_matching, n).len() <= if n < 0 { 0 } else { n },
    decreases n,
{
    if n > 0 {
        lemma_keep_by_hits_len(lines, hits, keep_matching, n - 1);
    }
}

proof fn lemma_kept_all(lines: Seq<Seq<char>>, keep: spec_fn(int) -> bool, n: int)
    requires
        0 <= n <= lines.len(),
        forall|i: int| 0 <= i < n ==> #[trigger] keep(i),
    ensures
        kept_where(lines, keep, n) == lines.take(n),
    decreases n,
{
    if n > 0 {
        lemma_kept_all(lines, keep, n - 1);
        assert(lines.take(n) =~= lines.take(n - 1).push(lines[n - 1]));
    }
}

proof fn lemma_dedup_shape(lines: Seq<Seq<char>>, casesensitive: bool, trimparts: bool, n: int)
    requires
        0 <= n <= lines.len(),
    ensures
        ({
            let keys = lines.map_values(|l: Seq<char>| dedup_key(l, casesensitive, trimparts));
            let d = kept_where(
                lines.map_values(|l: Seq<char>| processed_line(l, trimparts)),
                |i: int| first_seen(keys, i),
                n,
            );
            &&& forall|x: int| 0 <= x < d.len() ==> processed_line(#[trigger] d[x], trimparts) == d[x]
            &&& forall|x: int| 0 <= x < d.len() ==> exists|j: int| 0 <= j < n && #[trigger] dedup_key(d[x], casesensitive, trimparts) == keys[j]
            &&& forall|x: int, y: int| 0 <= x < y < d.len() ==> dedup_key(#[trigger] d[x], casesensitive, trimparts) != dedup_key(#[trigger] d[y], casesensitive, trimparts)
        }),
    decreases n,
{
    if n > 0 {
        lemma_dedup_shape(lines, casesensitive, trimparts, n - 1);
        let l = lines[n - 1];
        crate::text::lemma_trim_idempotent(l);
        assert(processed_line(processed_line(l, trimparts), trimparts) == processed_line(l, trimparts));
        assert(dedup_key(processed_line(l, trimparts), casesensitive, trimparts) == dedup_key(l, casesensitive, trimparts));
        let keys = lines.map_values(|l: Seq<char>| dedup_key(l, casesensitive, trimparts));
        let procs = lines.map_values(|l: Seq<char>| processed_line(l, trimparts));
        let fs = |i: int| first_seen(keys, i);
        let prev = kept_where(procs, fs, n - 1);
        let d = kept_where(procs, fs, n);
        if fs(n - 1) {
            assert(d == prev.push(procs[n - 1]));
            assert(procs[n - 1] == processed_line(l, trimparts));
            assert(dedup_key(d[prev.len() as int], casesensitive, trimparts) == keys[n - 1]);
            assert forall|x: int| 0 <= x < d.len() implies exists|j: int| 0 <= j < n && #[trigger] dedup_key(d[x], casesensitive, trimparts) == keys[j] by {
                if x < prev.len() {
                    assert(d[x] == prev[x]);
                    let j = choose|j: int| 0 <= j < n - 1 && #[trigger] dedup_key(prev[x], casesensitive, trimparts) == keys[j];
                    assert(dedup_key(d[x], casesensitive, trimparts) == keys[j]);
                } else {
                    assert(dedup_key(d[x], casesensitive, trimparts) == keys[n - 1]);
                }
            }
            assert forall|x: int, y: int| 0 <= x < y < d.len() implies dedup_key(#[trigger] d[x], casesensitive, trimparts) != dedup_key(#[trigger] d[y], casesensitive, trimparts) by {
                assert(d[x] == prev[x]);
                if y < prev.len() {
                    assert(d[y] == prev[y]);
                } else {
                    let j = choose|j: int| 0 <= j < n - 1 && #[trigger] dedup_key(prev[x], casesensitive, trimparts) == keys[j];
                    assert(keys[j] != keys[n - 1]);
                }
            }
            assert forall|x: int| 0 <= x < d.len() implies processed_line(#[trigger] d[x], trimparts) == d[x] by {
                if x < prev.len() {
                    assert(d[x] == prev[x]);
                }
            }
        } else {
            assert(d == prev);
            assert forall|x: int| 0 <= x < d.len() implies exists|j: int| 0 <= j < n && #[trigger] dedup_key(d[x], casesensitive, trimparts) == keys[j] by {
                let j = choose|j: int| 0 <= j < n - 1 && #[trigger] dedup_key(prev[x], casesensitive, trimparts) == keys[j];
                assert(dedup_key(d[x], casesensitive, trimparts) == keys[j]);
            }
        }
    }
}

/// Removing duplicates a second time changes nothing.
pub proof fn lemma_dedup_idempotent(lines: Seq<Seq<char>>, casesensitive: bool, trimparts: bool)
    ensures
        dedup_lines(dedup_lines(lines, casesensitive, trimparts), casesensitive, trimparts) == dedup_lines(
            lines,
            casesensitive,
            trimparts,
        ),
{
    let d = dedup_lines(lines, casesensitive, trimparts);
    lemma_dedup_shape(lines, casesensitive, trimparts, lines.len() as int);
    let keys2 = d.map_values(|l: Seq<char>| dedup_key(l, casesensitive, trimparts));
    let procs2 = d.map_values(|l: Seq<char>| processed_line(l, trimparts));
    assert forall|i: int| 0 <= i < d.len() implies #[trigger] first_seen(keys2, i) by {
        assert forall|j: int| 0 <= j < i implies keys2[j] != keys2[i] by {
            assert(dedup_key(d[j], casesensitive, trimparts) != dedup_key(d[i], casesensitive, trimparts));
        }
    }
    lemma_kept_all(procs2, |i: int| first_seen(keys2, i), d.len() as int);
    assert(procs2 =~= d);
    assert(procs2.take(d.len() as int) =~= procs2);
}

/// Running duplicate removal on its own output gives the same text, where
/// that output reads back as the lines it was joined from.
pub proof fn lemma_remove_duplicates_idempotent(
    text: Seq<char>,
    p: Seq<char>,
    casesensitive: bool,
    useregex: bool,
    trimparts: bool,
)
    requires
        ({
            let kept = remaining_lines(text, p, "duplicates"@, casesensitive, useregex, trimparts);
            lines_of(join(kept, seq!['\n'])) == kept
        }),
    ensures
        ({
            let once = join(remaining_lines(text, p, "duplicates"@, casesensitive, useregex, trimparts), seq!['\n']);
            join(remaining_lines(once, p, "duplicates"@, casesensitive, useregex, trimparts), seq!['\n']) == once
        }),
{
    lemma_dedup_idempotent(lines_of(text), casesensitive, trimparts);
}

/// Keeps each line whose key, at the same position, appears at no earlier position.
pub fn keep_first_occurrences(lines: &Vec<Vec<char>>, keys: &Vec<Vec<char>>) -> (r: Vec<Vec<char>>)
    requires
        lines.len() == keys.len(),
    ensures
        views(r@) == keep_first(views(lines@), views(keys@)),
{
    let ghost kv = views(keys@);
    let mut out: Vec<Vec<char>> = Vec::new();
    for i in 0..lines.len()
        invariant
            lines.len() == keys.len(),
            kv == views(keys@),
            views(out@) == kept_where(views(lines@), |k: int| first_seen(kv, k), i as int),
    {
        let mut seen = false;
        for j in 0..i
            invariant
                i < keys.len(),
                kv == views(keys@),
                seen <==> exists|q: int| 0 <= q < j && kv[q] == kv[i as int],
        {
            assert(kv[j as int] == keys@[j as int]@);
            assert(kv[i as int] == keys@[i as int]@);
            if same_chars(&keys[j], &keys[i]) {
                seen = true;
            }
        }
        if !seen {
            out.push(copy_chars(&lines[i]));
            assert(views(lines@)[i as int] == lines@[i as int]@);
            assert(views(out@) =~= kept_where(views(lines@), |k: int| first_seen(kv, k), i as int).push(
                views(lines@)[i as int],
            ));
        }
    }
    out
}

/// Keeps each line whose match result, at the same position, is `keep_matching`.
pub fn keep_lines_by_match(lines: &Vec<Vec<char>>, hits: &Vec<bool>, keep_matching: bool) -> (r: Vec<Vec<char>>)
    requires
        lines.len() == hits.len(),
    ensures
        views(r@) == keep_by_hits(views(lines@), hits@, keep_matching),
{
    let mut out: Vec<Vec<char>> = Vec::new();
    for i in 0..lines.len()
        invariant
            lines.len() == hits.len(),
            views(out@) == keep_by_hits_upto(views(lines@), hits@, keep_matching, i as int),
    {
        if hits[i] == keep_matching {
            out.push(copy_chars(&lines[i]));
            assert(views(lines@)[i as int] == lines@[i as int]@);
            assert(views(out@) =~= keep_by_hits_upto(views(lines@), hits@, keep_matching, i as int).push(
                views(lines@)[i as int],
            ));
        }
    }
    out
}

fn dedup(lines: &Vec<Vec<char>>, casesensitive: bool, trimparts: bool) -> (r: Vec<Vec<char>>)
    ensures
        views(r@) == dedup_lines(views(lines@), casesensitive, trimparts),
{
    let ghost lv = views(lines@);
    let mut procs: Vec<Vec<char>> = Vec::new();
    let mut keys: Vec<Vec<char>> = Vec::new();
    for i in 0..lines.len()
        invariant
            lv == views(lines@),
            procs.len() == i,
            keys.len() == i,
            views(procs@) == lv.map_values(|l: Seq<char>| processed_line(l, trimparts)).take(i as int),
            views(keys@) == lv.map_values(|l: Seq<char>| dedup_key(l, casesensitive, trimparts)).take(i as int),
    {
        let line = &lines[i];
        assert(lv[i as int] == line@);
        let processed = if trimparts {
            trim_chars(line)
        } else {
            copy_chars(line)
        };
        let key = if casesensitive {
            copy_chars(&processed)
        } else {
            lower_chars(&processed)
        };
        procs.push(processed);
        keys.push(key);
        assert(views(procs@) =~= lv.map_values(|l: Seq<char>| processed_line(l, trimparts)).take(i + 1));
        assert(views(keys@) =~= lv.map_values(|l: Seq<char>| dedup_key(l, casesensitive, trimparts)).take(i + 1));
    }
    assert(lv.map_values(|l: Seq<char>| processed_line(l, trimparts)).take(lv.len() as int) =~= lv.map_values(
        |l: Seq<char>| processed_line(l, trimparts),
    ));
    assert(lv.map_values(|l: Seq<char>| dedup_key(l, casesensitive, trimparts)).take(lv.len() as int) =~= lv.map_values(
        |l: Seq<char>| dedup_key(l, casesensitive, trimparts),
    ));
    keep_first_occurrences(&procs, &keys)
}

impl TextProcessor {
    /// Removes lines of `text`. Mode `duplicates` keeps the first line of
    /// every key (the line, trimmed where `trimparts` is set, lowercased
    /// unless `casesensitive`), trimmed where `trimparts` is set. Mode
    /// `containing` keeps the lines that match `pattern`, any other mode the
    /// lines that do not; the pattern is a regular expression where `useregex`
    /// is set, else a literal. The kept lines are joined by newlines and the
    /// number of dropped lines is reported. Fails, before any work, where a
    /// needed regular expression is invalid.
    pub fn remove_lines_internal(
        text: &str,
        pattern: &str,
        removemode: &str,
        casesensitive: bool,
        useregex: bool,
        trimparts: bool,
    ) -> (r: Result<ProcessedText<String>, String>)
        ensures
            r is Err <==> (removemode@ != "duplicates"@ && useregex && !regex_compiles(
                case_pattern(pattern@, casesensitive),
            )),
            r matches Ok(p) ==> p.result_text@ == join(
                remaining_lines(text@, pattern@, removemode@, casesensitive, useregex, trimparts),
                seq!['\n'],
            ) && p.removed_lines == lines_of(text@).len() - remaining_lines(
                text@,
                pattern@,
                removemode@,
                casesensitive,
                useregex,
                trimparts,
            ).len(),
    {
        let lines = split_lines(&chars_of(text));
        let ghost lv = views(lines@);
        let kept = if is_word(removemode, "duplicates") {
            dedup(&lines, casesensitive, trimparts)
        } else {
            let re = if useregex {
                match compile_with_case(pattern, casesensitive) {
                    Some(m) => Some(m),
                    None => {
                        return Err("⚠ Ungültiges Regex-Pattern".to_string());
                    },
                }
            } else {
                None
            };
            let keep_matching = is_word(removemode, "containing");
            let p = chars_of(pattern);
            let lp = lower_chars(&p);
            let mut hits: Vec<bool> = Vec::new();
            let ghost want = lv.map_values(|l: Seq<char>| line_matches(l, pattern@, casesensitive, useregex));
            for i in 0..lines.len()
                invariant
                    lv == views(lines@),
                    p@ == pattern@,
                    lp@ == lower_of(pattern@),
                    re is Some == useregex,
                    re matches Some(m) ==> m.pattern() == case_pattern(pattern@, casesensitive),
                    want == lv.map_values(|l: Seq<char>| line_matches(l, pattern@, casesensitive, useregex)),
                    hits.len() == i,
                    hits@ == want.take(i as int),
            {
                let line = &lines[i];
                assert(lv[i as int] == line@);
                let hit = match &re {
                    Some(m) => m.is_match(line),
                    None => if casesensitive {
                        contains_chars(line, &p)
                    } else {
                        contains_chars(&lower_chars(line), &lp)
                    },
                };
                hits.push(hit);
                assert(hits@ =~= want.take(i + 1));
            }
            assert(want.take(lv.len() as int) =~= want);
            keep_lines_by_match(&lines, &hits, keep_matching)
        };
        let ghost model = remaining_lines(text@, pattern@, removemode@, casesensitive, useregex, trimparts);
        assert(views(kept@) == model);
        proof {
            if removemode@ == "duplicates"@ {
                let procs = lv.map_values(|l: Seq<char>| processed_line(l, trimparts));
                let keys = lv.map_values(|l: Seq<char>| dedup_key(l, casesensitive, trimparts));
                lemma_kept_len(procs, |i: int| first_seen(keys, i), procs.len() as int);
            } else {
                let hits = lv.map_values(|l: Seq<char>| line_matches(l, pattern@, casesensitive, useregex));
                lemma_keep_by_hits_len(lv, hits, removemode@ == "containing"@, lv.len() as int);
            }
        }
        let newline: Vec<char> = vec!['\n'];
        assert(newline@ =~= seq!['\n']);
        let joined = join_chars(&kept, &newline);
        Ok(ProcessedText { result_text: string_of(&joined), removed_lines: lines.len() - kept.len() })
    }
}

} // verus!
