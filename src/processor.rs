//! What the text operations share: their result type, the operations'
//! home type, and compiling a pattern with its case flag.

use vstd::prelude::*;
use crate::pattern::{compile, regex_compiles, RegexMatcher};
use crate::text::{chars_of, copy_chars, same_chars, string_of};

verus! {

/// An operation's output together with the number of input lines it dropped.
pub struct ProcessedText<T> {
    pub result_text: T,
    pub removed_lines: usize,
}

/// The text operations.
pub struct TextProcessor;

/// The pattern as compiled: prefixed by `(?i)` where matching ignores case.
pub open spec fn case_pattern(p: Seq<char>, casesensitive: bool) -> Seq<char> {
    if casesensitive {
        p
    } else {
        seq!['(', '?', 'i', ')'] + p
    }
}

/// The characters of `a` followed by those of `b`.
pub(crate) fn concat_chars(a: &Vec<char>, b: &Vec<char>) -> (r: Vec<char>)
    ensures
        r@ == a@ + b@,
{
    let mut r = copy_chars(a);
    for k in 0..b.len()
        invariant
            r@ == a@ + b@.take(k as int),
    {
        r.push(b[k]);
        assert(b@.take(k + 1) =~= b@.take(k as int).push(b@[k as int]));
    }
    assert(b@.take(b.len() as int) =~= b@);
    r
}

/// Compiles the pattern, prefixed by `(?i)` where case is ignored.
pub(crate) fn compile_with_case(pattern: &str, casesensitive: bool) -> (r: Option<RegexMatcher>)
    ensures
        r is Some <==> regex_compiles(case_pattern(pattern@, casesensitive)),
        r matches Some(m) ==> m.pattern() == case_pattern(pattern@, casesensitive),
{
    let p = chars_of(pattern);
    let full = if casesensitive {
        p
    } else {
        let prefix: Vec<char> = vec!['(', '?', 'i', ')'];
        assert(prefix@ =~= seq!['(', '?', 'i', ')']);
        concat_chars(&prefix, &p)
    };
    let s = string_of(&full);
    compile(s.as_str())
}

/// Whether `s` is the word `w`.
pub(crate) fn is_word(s: &str, w: &str) -> (r: bool)
    ensures
        r == (s@ == w@),
{
    same_chars(&chars_of(s), &chars_of(w))
}

} // verus!
