//! Pattern matching: regular expressions through `fancy_regex`, literal
//! substring search, and lowercasing for case-insensitive comparison.

use vstd::prelude::*;
use crate::text::chars_of;

verus! {

/// `fancy_regex`'s compiled regular expression, carried opaquely.
#[verifier::external_type_specification]
#[verifier::external_body]
pub struct ExRegex(fancy_regex::Regex);

/// `fancy_regex`'s error type, carried opaquely.
#[verifier::external_type_specification]
#[verifier::external_body]
pub struct ExRegexError(fancy_regex::Error);

/// Whether `fancy_regex` accepts `p` as a pattern.
pub uninterp spec fn regex_compiles(p: Seq<char>) -> bool;

/// The pieces of `line` between the matches of pattern `p`, in order.
pub uninterp spec fn regex_split_of(p: Seq<char>, line: Seq<char>) -> Seq<Seq<char>>;

/// The non-overlapping matches of pattern `p` in `line`, in order.
pub uninterp spec fn regex_matches_of(p: Seq<char>, line: Seq<char>) -> Seq<Seq<char>>;

/// Whether pattern `p` matches somewhere in `line`.
pub uninterp spec fn regex_is_match_of(p: Seq<char>, line: Seq<char>) -> bool;

/// `line` with every match of pattern `p` deleted; `None` where matching
/// fails at run time.
pub uninterp spec fn regex_removed_of(p: Seq<char>, line: Seq<char>) -> Option<Seq<char>>;

/// The lowercase form of `s`.
pub uninterp spec fn lower_of(s: Seq<char>) -> Seq<char>;

/// The views of a sequence of strings.
pub open spec fn string_views(v: Seq<String>) -> Seq<Seq<char>> {
    v.map_values(|x: String| x@)
}

/// A compiled regular expression together with the pattern it came from.
pub struct RegexMatcher {
    re: fancy_regex::Regex,
    source: String,
}

impl RegexMatcher {
    /// The pattern this matcher was compiled from.
    pub closed spec fn pattern(&self) -> Seq<char> {
        self.source@
    }
}

/// Relies on `fancy_regex::Regex::new`: it succeeds exactly on the patterns
/// that it accepts, and the compiled regex belongs to `p`.
#[verifier::external_body]
fn compile_regex(p: &str) -> (r: Result<RegexMatcher, fancy_regex::Error>)
    ensures
        r is Ok <==> regex_compiles(p@),
        r matches Ok(m) ==> m.pattern() == p@,
{
    fancy_regex::Regex::new(p).map(|re| RegexMatcher { re, source: p.to_string() })
}

/// Compiles `p`, or says that it is no valid pattern.
pub fn compile(p: &str) -> (r: Option<RegexMatcher>)
    ensures
        r is Some <==> regex_compiles(p@),
        r matches Some(m) ==> m.pattern() == p@,
{
    match compile_regex(p) {
        Ok(m) => Some(m),
        Err(_) => None,
    }
}

/// Relies on `fancy_regex::Regex::split`; a piece that fails at run time is empty.
#[verifier::external_body]
fn regex_split(m: &RegexMatcher, line: &str) -> (r: Vec<String>)
    ensures
        string_views(r@) == regex_split_of(m.pattern(), line@),
{
    m.re.split(line).map(|s| s.unwrap_or("").to_string()).collect()
}

/// Relies on `fancy_regex::Regex::find_iter`; matches that fail at run time are skipped.
#[verifier::external_body]
fn regex_find_all(m: &RegexMatcher, line: &str) -> (r: Vec<String>)
    ensures
        string_views(r@) == regex_matches_of(m.pattern(), line@),
{
    m.re.find_iter(line).filter_map(|x| x.ok()).map(|x| x.as_str().to_string()).collect()
}

/// Relies on `fancy_regex::Regex::is_match`; a run-time failure counts as no match.
#[verifier::external_body]
fn regex_is_match(m: &RegexMatcher, line: &str) -> (r: bool)
    ensures
        r == regex_is_match_of(m.pattern(), line@),
{
    m.re.is_match(line).unwrap_or(false)
}

/// Relies on `fancy_regex::Regex::try_replacen` with limit 0 (every match) and an
/// empty replacement.
#[verifier::external_body]
fn regex_remove(m: &RegexMatcher, line: &str) -> (r: Option<String>)
    ensures
        match r {
            Some(s) => regex_removed_of(m.pattern(), line@) == Some(s@),
            None => regex_removed_of(m.pattern(), line@) is None,
        },
{
    m.re.try_replacen(line, 0, "").ok().map(|c| c.into_owned())
}

/// Relies on `str::to_lowercase`: the result depends on the characters alone.
#[verifier::external_body]
fn lowercase(s: &str) -> (r: String)
    ensures
        r@ == lower_of(s@),
{
    s.to_lowercase()
}

fn to_char_rows(v: &Vec<String>) -> (r: Vec<Vec<char>>)
    ensures
        crate::text::views(r@) == string_views(v@),
{
    let mut r: Vec<Vec<char>> = Vec::new();
    for i in 0..v.len()
        invariant
            r.len() == i,
            crate::text::views(r@) == string_views(v@).take(i as int),
    {
        r.push(chars_of(v[i].as_str()));
        assert(crate::text::views(r@) =~= string_views(v@).take(i + 1));
    }
    assert(string_views(v@).take(v.len() as int) =~= string_views(v@));
    r
}

impl RegexMatcher {
    /// The pieces of `line` between matches.
    pub fn split(&self, line: &Vec<char>) -> (r: Vec<Vec<char>>)
        ensures
            crate::text::views(r@) == regex_split_of(self.pattern(), line@),
    {
        let s = crate::text::string_of(line);
        to_char_rows(&regex_split(self, s.as_str()))
    }

    /// The matches in `line`, in order.
    pub fn find_all(&self, line: &Vec<char>) -> (r: Vec<Vec<char>>)
        ensures
            crate::text::views(r@) == regex_matches_of(self.pattern(), line@),
    {
        let s = crate::text::string_of(line);
        to_char_rows(&regex_find_all(self, s.as_str()))
    }

    /// Whether the pattern matches in `line`.
    pub fn is_match(&self, line: &Vec<char>) -> (r: bool)
        ensures
            r == regex_is_match_of(self.pattern(), line@),
    {
        let s = crate::text::string_of(line);
        regex_is_match(self, s.as_str())
    }

    /// `line` with all matches deleted; the line itself where matching fails.
    pub fn remove_all(&self, line: &Vec<char>) -> (r: Vec<char>)
        ensures
            r@ == match regex_removed_of(self.pattern(), line@) {
                Some(x) => x,
                None => line@,
            },
    {
        let s = crate::text::string_of(line);
        match regex_remove(self, s.as_str()) {
            Some(t) => chars_of(t.as_str()),
            None => crate::text::copy_chars(line),
        }
    }
}

/// The lowercase form of a character vector.
pub fn lower_chars(s: &Vec<char>) -> (r: Vec<char>)
    ensures
        r@ == lower_of(s@),
{
    let t = crate::text::string_of(s);
    chars_of(lowercase(t.as_str()).as_str())
}

/// `p` occurs in `s` at position `i`.
pub open spec fn occurs_at(s: Seq<char>, p: Seq<char>, i: int) -> bool {
    0 <= i && i + p.len() <= s.len() && s.subrange(i, i + p.len()) == p
}

/// `p` occurs somewhere in `s`.
pub open spec fn contains(s: Seq<char>, p: Seq<char>) -> bool {
    exists|i: int| occurs_at(s, p, i)
}

/// Literal substring search.
pub fn contains_chars(s: &Vec<char>, p: &Vec<char>) -> (r: bool)
    ensures
        r == contains(s@, p@),
{
    if p.len() > s.len() {
        assert forall|i: int| !occurs_at(s@, p@, i) by {}
        return false;
    }
    if p.len() == 0 {
        assert(s@.subrange(0, 0) =~= p@);
        assert(occurs_at(s@, p@, 0));
        return true;
    }
    let last = s.len() - p.len();
    let mut i: usize = 0;
    while i <= last
        invariant
            last == s.len() - p.len(),
            0 < p.len() <= s.len(),
            forall|j: int| 0 <= j < i ==> !occurs_at(s@, p@, j),
        decreases last + 1 - i,
    {
        let mut k: usize = 0;
        let mut ok = true;
        while k < p.len()
            invariant
                i <= last,
                last == s.len() - p.len(),
                k <= p.len(),
                ok ==> s@.subrange(i as int, i + k) == p@.take(k as int),
                !ok ==> !occurs_at(s@, p@, i as int),
            decreases p.len() - k,
        {
            if ok && s[i + k] != p[k] {
                ok = false;
                assert(s@.subrange(i as int, i + p.len())[k as int] != p@[k as int]);
            }
            if ok {
                assert(s@.subrange(i as int, i + k + 1) =~= s@.subrange(i as int, i + k).push(s@[i + k]));
                assert(p@.take(k + 1) =~= p@.take(k as int).push(p@[k as int]));
            }
            k = k + 1;
        }
        if ok {
            assert(p@.take(p.len() as int) =~= p@);
            assert(occurs_at(s@, p@, i as int));
            return true;
        }
        i = i + 1;
    }
    assert forall|j: int| !occurs_at(s@, p@, j) by {
        if 0 <= j && j + p.len() <= s.len() {
            assert(j < i);
        }
    }
    false
}


/// Whether `p` occurs in `s` at position `i`.
fn occurs_at_exec(s: &Vec<char>, p: &Vec<char>, i: usize) -> (r: bool)
    requires
        i + p.len() <= s.len(),
    ensures
        r == occurs_at(s@, p@, i as int),
{
    let mut k: usize = 0;
    while k < p.len()
        invariant
            i + p.len() <= s.len(),
            k <= p.len(),
            s@.subrange(i as int, i + k) == p@.take(k as int),
        decreases p.len() - k,
    {
        if s[i + k] != p[k] {
            assert(s@.subrange(i as int, i + p.len())[k as int] != p@[k as int]);
            return false;
        }
        assert(s@.subrange(i as int, i + k + 1) =~= s@.subrange(i as int, i + k).push(s@[i + k]));
        assert(p@.take(k + 1) =~= p@.take(k as int).push(p@[k as int]));
        k = k + 1;
    }
    assert(p@.take(p.len() as int) =~= p@);
    true
}

/// Splitting `s` at a non-empty delimiter `d`, scanning from position `i`,
/// the current piece having begun at `start`: each leftmost occurrence ends a
/// piece, and the scan goes on after it.
pub open spec fn split_from(s: Seq<char>, d: Seq<char>, start: int, i: int) -> Seq<Seq<char>>
    recommends
        d.len() > 0,
    decreases s.len() - i,
{
    if d.len() == 0 || i + d.len() > s.len() {
        seq![s.subrange(start, s.len() as int)]
    } else if occurs_at(s, d, i) {
        seq![s.subrange(start, i)] + split_from(s, d, i + d.len(), i + d.len())
    } else {
        split_from(s, d, start, i + 1)
    }
}

/// The pieces of `s` between the occurrences of `d`, as `str::split` gives
/// them; an empty delimiter occurs at every character boundary.
pub open spec fn split_literal(s: Seq<char>, d: Seq<char>) -> Seq<Seq<char>> {
    if d.len() == 0 {
        seq![Seq::<char>::empty()] + Seq::new(s.len(), |i: int| seq![s[i]]) + seq![Seq::<char>::empty()]
    } else {
        split_from(s, d, 0, 0)
    }
}

/// Splits `s` at every occurrence of `d`.
pub fn split_chars(s: &Vec<char>, d: &Vec<char>) -> (r: Vec<Vec<char>>)
    ensures
        crate::text::views(r@) == split_literal(s@, d@),
{
    let mut out: Vec<Vec<char>> = Vec::new();
    if d.len() == 0 {
        out.push(Vec::new());
        for i in 0..s.len()
            invariant
                crate::text::views(out@) == seq![Seq::<char>::empty()] + Seq::new(i as nat, |k: int| seq![s@[k]]),
        {
            let one: Vec<char> = vec![s[i]];
            assert(one@ =~= seq![s@[i as int]]);
            let ghost before = crate::text::views(out@);
            out.push(one);
            assert(crate::text::views(out@) =~= before.push(seq![s@[i as int]]));
            assert(crate::text::views(out@) =~= seq![Seq::<char>::empty()] + Seq::new((i + 1) as nat, |k: int| seq![s@[k]]));
        }
        out.push(Vec::new());
        assert(crate::text::views(out@) =~= split_literal(s@, d@));
        return out;
    }
    let mut start: usize = 0;
    let mut i: usize = 0;
    let mut piece: Vec<char> = Vec::new();
    while d.len() <= s.len() - i
        invariant
            d.len() > 0,
            start <= i <= s.len(),
            piece@ == s@.subrange(start as int, i as int),
            crate::text::views(out@) + split_from(s@, d@, start as int, i as int) == split_from(s@, d@, 0, 0),
        decreases s.len() - i,
    {
        if occurs_at_exec(s, d, i) {
            let ghost before = crate::text::views(out@);
            out.push(piece);
            assert(crate::text::views(out@) == before.push(s@.subrange(start as int, i as int)));
            assert(crate::text::views(out@) + split_from(s@, d@, (i + d.len()) as int, (i + d.len()) as int)
                =~= before + split_from(s@, d@, start as int, i as int));
            i = i + d.len();
            start = i;
            piece = Vec::new();
        } else {
            piece.push(s[i]);
            assert(s@.subrange(start as int, i + 1) =~= s@.subrange(start as int, i as int).push(s@[i as int]));
            i = i + 1;
        }
    }
    for k in i..s.len()
        invariant
            start <= i <= k <= s.len(),
            piece@ == s@.subrange(start as int, k as int),
    {
        piece.push(s[k]);
        assert(s@.subrange(start as int, k + 1) =~= s@.subrange(start as int, k as int).push(s@[k as int]));
    }
    out.push(piece);
    assert(crate::text::views(out@) =~= split_from(s@, d@, 0, 0));
    out
}

} // verus!
