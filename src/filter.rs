//! Filtering lines by a regular expression: deleting or extracting matches.

use vstd::prelude::*;
use crate::pattern::{regex_compiles, regex_matches_of, regex_removed_of};
use crate::processor::{case_pattern, compile_with_case, is_word, ProcessedText, TextProcessor};
use crate::text::{blank, chars_of, copy_chars, is_white, join, join_chars, lines_of, split_lines, string_of, views, white};

verus! {

/// One line after filtering: empty for a blank line; else the line with
/// every match deleted (`remove`), or the matches joined (`extract`), by
/// newlines where `split` is set.
pub open spec fn filtered_line(p: Seq<char>, line: Seq<char>, remove: bool, split: bool) -> Seq<char> {
    if blank(line) {
        Seq::<char>::empty()
    } else if remove {
        match regex_removed_of(p, line) {
            Some(x) => x,
            None => line,
        }
    } else {
        join(regex_matches_of(p, line), if split { seq!['\n'] } else { Seq::<char>::empty() })
    }
}

/// The non-empty entries, in order.
pub open spec fn non_empty(s: Seq<Seq<char>>) -> Seq<Seq<char>>
    decreases s.len(),
{
    if s.len() == 0 {
        s
    } else if s.last().len() > 0 {
        non_empty(s.drop_last()).push(s.last())
    } else {
        non_empty(s.drop_last())
    }
}

/// The surviving lines of a filter run.
pub open spec fn filtered_lines(text: Seq<char>, p: Seq<char>, remove: bool, split: bool) -> Seq<Seq<char>> {
    non_empty(lines_of(text).map_values(|l: Seq<char>| filtered_line(p, l, remove, split)))
}

fn is_blank(line: &Vec<char>) -> (r: bool)
    ensures
        r == blank(line@),
{
    for i in 0..line.len()
        invariant
            forall|j: int| 0 <= j < i ==> white(#[trigger] line@[j]),
    {
        if !is_white(line[i]) {
            return false;
        }
    }
    true
}

/// The non-empty lines joined by newlines.
pub fn join_non_empty(lines: &Vec<Vec<char>>) -> (r: Vec<char>)
    ensures
        r@ == join(non_empty(views(lines@)), seq!['\n']),
{
    let ghost lv = views(lines@);
    let mut out: Vec<Vec<char>> = Vec::new();
    for i in 0..lines.len()
        invariant
            lv == views(lines@),
            views(out@) == non_empty(lv.take(i as int)),
    {
        assert(lv.take(i + 1).drop_last() =~= lv.take(i as int));
        assert(lv[i as int] == lines@[i as int]@);
        if lines[i].len() > 0 {
            out.push(copy_chars(&lines[i]));
            assert(views(out@) =~= non_empty(lv.take(i as int)).push(lv[i as int]));
        }
    }
    assert(lv.take(lines.len() as int) =~= lv);
    let newline: Vec<char> = vec!['\n'];
    assert(newline@ =~= seq!['\n']);
    join_chars(&out, &newline)
}

impl TextProcessor {
    /// Filters every line of `text` by the regular expression `pattern`
    /// (case-insensitive unless `casesensitive`): mode `remove` deletes the
    /// matches, any other mode keeps only the matches. Blank lines and lines
    /// left empty are dropped; the rest are joined by newlines. Fails, before
    /// any work, where the pattern is no valid regular expression.
    pub fn filter_text_internal(
        text: &str,
        pattern: &str,
        filter_mode: &str,
        casesensitive: bool,
        splitmatches: bool,
    ) -> (r: Result<ProcessedText<String>, String>)
        ensures
            r is Err <==> !regex_compiles(case_pattern(pattern@, casesensitive)),
            r matches Ok(p) ==> p.result_text@ == join(
                filtered_lines(
                    text@,
                    case_pattern(pattern@, casesensitive),
                    filter_mode@ == "remove"@,
                    splitmatches,
                ),
                seq!['\n'],
            ) && p.removed_lines == 0,
    {
        let re = match compile_with_case(pattern, casesensitive) {
            Some(m) => m,
            None => {
                return Err("⚠ Fehlerhafte Regex-Syntax".to_string());
            },
        };
        let remove = is_word(filter_mode, "remove");
        let ghost pat = case_pattern(pattern@, casesensitive);
        let lines = split_lines(&chars_of(text));
        let ghost mapped = views(lines@).map_values(|l: Seq<char>| filtered_line(pat, l, remove, splitmatches));
        let sep: Vec<char> = if splitmatches {
            vec!['\n']
        } else {
            Vec::new()
        };
        assert(sep@ =~= if splitmatches { seq!['\n'] } else { Seq::<char>::empty() });
        let mut done: Vec<Vec<char>> = Vec::new();
        for i in 0..lines.len()
            invariant
                re.pattern() == pat,
                sep@ == if splitmatches { seq!['\n'] } else { Seq::<char>::empty() },
                mapped == views(lines@).map_values(|l: Seq<char>| filtered_line(pat, l, remove, splitmatches)),
                done.len() == i,
                views(done@) == mapped.take(i as int),
        {
            let line = &lines[i];
            assert(views(lines@)[i as int] == line@);
            let one = if is_blank(line) {
                Vec::new()
            } else if remove {
                re.remove_all(line)
            } else {
                join_chars(&re.find_all(line), &sep)
            };
            done.push(one);
            assert(views(done@) =~= mapped.take(i + 1));
        }
        assert(mapped.take(lines.len() as int) =~= mapped);
        let joined = join_non_empty(&done);
        Ok(ProcessedText { result_text: string_of(&joined), removed_lines: 0 })
    }
}

} // verus!
