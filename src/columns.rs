//! Splitting lines into columns, and joining two texts line by line.

use vstd::prelude::*;
use crate::pattern::{compile, regex_compiles, regex_split_of, split_chars, split_literal, string_views, RegexMatcher};
use crate::processor::{ProcessedText, TextProcessor};
use crate::text::{chars_of, join, lines_of, split_lines, string_of, trim, trim_chars, views};

verus! {

/// The parts of one line.
pub open spec fn parts_of(line: Seq<char>, delim: Seq<char>, trimparts: bool, useregex: bool) -> Seq<Seq<char>> {
    let raw = if useregex {
        regex_split_of(delim, line)
    } else {
        split_literal(line, delim)
    };
    if trimparts {
        raw.map_values(|x: Seq<char>| trim(x))
    } else {
        raw
    }
}

/// The parts of every line of `text`.
pub open spec fn rows_of(text: Seq<char>, delim: Seq<char>, trimparts: bool, useregex: bool) -> Seq<Seq<Seq<char>>> {
    lines_of(text).map_values(|l: Seq<char>| parts_of(l, delim, trimparts, useregex))
}

/// The largest number of parts in a row.
pub open spec fn width(rows: Seq<Seq<Seq<char>>>) -> nat
    decreases rows.len(),
{
    if rows.len() == 0 {
        0
    } else {
        let w = width(rows.drop_last());
        if rows.last().len() > w {
            rows.last().len()
        } else {
            w
        }
    }
}

/// Part `c` of row `i`, empty where the row has fewer parts.
pub open spec fn cell(rows: Seq<Seq<Seq<char>>>, i: int, c: int) -> Seq<char> {
    if c < rows[i].len() {
        rows[i][c]
    } else {
        Seq::<char>::empty()
    }
}

/// Column `c`: one entry per row.
pub open spec fn column(rows: Seq<Seq<Seq<char>>>, c: int) -> Seq<Seq<char>> {
    Seq::new(rows.len(), |i: int| cell(rows, i, c))
}

/// Every column joined by newlines.
pub open spec fn columns_of(rows: Seq<Seq<Seq<char>>>) -> Seq<Seq<char>> {
    Seq::new(width(rows), |c: int| join(column(rows, c), seq!['\n']))
}

/// Each column holds one entry for every line of the input.
pub proof fn lemma_columns_aligned(text: Seq<char>, delim: Seq<char>, trimparts: bool, useregex: bool)
    ensures
        forall|c: int|
            0 <= c < width(rows_of(text, delim, trimparts, useregex)) ==> (#[trigger] column(
                rows_of(text, delim, trimparts, useregex),
                c,
            )).len() == lines_of(text).len(),
{
}

/// Line `i` of `ls`, or empty past its end.
pub open spec fn line_or_empty(ls: Seq<Seq<char>>, i: int) -> Seq<char> {
    if i < ls.len() {
        ls[i]
    } else {
        Seq::<char>::empty()
    }
}

/// Line `i` of the first text, the separator, line `i` of the second text,
/// for as many lines as the longer text has.
pub open spec fn connected_rows(l1: Seq<Seq<char>>, l2: Seq<Seq<char>>, sep: Seq<char>) -> Seq<Seq<char>> {
    let n = if l1.len() > l2.len() {
        l1.len()
    } else {
        l2.len()
    };
    Seq::new(n, |i: int| line_or_empty(l1, i) + sep + line_or_empty(l2, i))
}

/// Where both texts have the same number of lines, the joined text has that
/// many rows, each built as line, separator, line.
pub proof fn lemma_connect_equal_length(l1: Seq<Seq<char>>, l2: Seq<Seq<char>>, sep: Seq<char>)
    requires
        l1.len() == l2.len(),
    ensures
        connected_rows(l1, l2, sep).len() == l1.len(),
        forall|i: int| 0 <= i < l1.len() ==> #[trigger] connected_rows(l1, l2, sep)[i] == l1[i] + sep + l2[i],
{
}

fn map_trim(v: Vec<Vec<char>>) -> (r: Vec<Vec<char>>)
    ensures
        views(r@) == views(v@).map_values(|x: Seq<char>| trim(x)),
{
    let mut r: Vec<Vec<char>> = Vec::new();
    for i in 0..v.len()
        invariant
            r.len() == i,
            views(r@) == views(v@).map_values(|x: Seq<char>| trim(x)).take(i as int),
    {
        r.push(trim_chars(&v[i]));
        assert(views(r@) =~= views(v@).map_values(|x: Seq<char>| trim(x)).take(i + 1));
    }
    assert(views(v@).map_values(|x: Seq<char>| trim(x)).take(v.len() as int) =~= views(v@).map_values(
        |x: Seq<char>| trim(x),
    ));
    r
}

fn line_parts(line: &Vec<char>, delim: &str, trimparts: bool, re: &Option<RegexMatcher>) -> (r: Vec<Vec<char>>)
    requires
        re matches Some(m) ==> m.pattern() == delim@,
    ensures
        views(r@) == parts_of(line@, delim@, trimparts, re is Some),
{
    let raw = match re {
        Some(m) => m.split(line),
        None => split_chars(line, &chars_of(delim)),
    };
    if trimparts {
        map_trim(raw)
    } else {
        raw
    }
}

fn column_text(rows: &Vec<Vec<Vec<char>>>, c: usize, Ghost(model): Ghost<Seq<Seq<Seq<char>>>>) -> (r: String)
    requires
        rows.len() == model.len(),
        forall|i: int| 0 <= i < rows.len() ==> views(#[trigger] rows@[i]@) == model[i],
    ensures
        r@ == join(column(model, c as int), seq!['\n']),
{
    let mut entries: Vec<Vec<char>> = Vec::new();
    for i in 0..rows.len()
        invariant
            rows.len() == model.len(),
            forall|p: int| 0 <= p < rows.len() ==> views(#[trigger] rows@[p]@) == model[p],
            entries.len() == i,
            views(entries@) == column(model, c as int).take(i as int),
    {
        let row = &rows[i];
        let entry = if c < row.len() {
            crate::text::copy_chars(&row[c])
        } else {
            Vec::new()
        };
        assert(views(row@) == model[i as int]);
        assert(views(row@)[c as int] == row@[c as int]@ || c >= row.len());
        entries.push(entry);
        assert(views(entries@) =~= column(model, c as int).take(i + 1));
    }
    assert(column(model, c as int).take(rows.len() as int) =~= column(model, c as int));
    let newline: Vec<char> = vec!['\n'];
    let joined = crate::text::join_chars(&entries, &newline);
    assert(newline@ =~= seq!['\n']);
    string_of(&joined)
}

/// The views of a table of rows of parts.
pub open spec fn table_view(rows: Seq<Vec<Vec<char>>>) -> Seq<Seq<Seq<char>>> {
    rows.map_values(|r: Vec<Vec<char>>| views(r@))
}

/// Gathers part `c` of every row into column `c`, empty where a row has
/// fewer parts, and joins each column by newlines.
pub fn assemble_columns(rows: &Vec<Vec<Vec<char>>>) -> (r: Vec<String>)
    ensures
        string_views(r@) == columns_of(table_view(rows@)),
{
    let ghost model = table_view(rows@);
    let mut w: usize = 0;
    for i in 0..rows.len()
        invariant
            model == table_view(rows@),
            w == width(model.take(i as int)),
    {
        assert(model.take(i + 1).drop_last() =~= model.take(i as int));
        assert(model[i as int].len() == rows[i as int].len());
        if rows[i].len() > w {
            w = rows[i].len();
        }
    }
    assert(model.take(rows.len() as int) =~= model);
    let mut cols: Vec<String> = Vec::new();
    for c in 0..w
        invariant
            model == table_view(rows@),
            w == width(model),
            cols.len() == c,
            string_views(cols@) == columns_of(model).take(c as int),
    {
        let s = column_text(rows, c, Ghost(model));
        cols.push(s);
        assert(string_views(cols@) =~= columns_of(model).take(c + 1));
    }
    assert(columns_of(model).take(w as int) =~= columns_of(model));
    cols
}

impl TextProcessor {
    /// Splits every line of `text` at `delimiter` (a regular expression where
    /// `useregex` is set) and gathers part `i` of every line into column `i`,
    /// empty where a line has fewer parts; each column is joined by newlines.
    /// Fails, before any work, where the delimiter is no valid regular expression.
    pub fn process_text_block_to_column_strings(
        text: &str,
        delimiter: &str,
        trimparts: bool,
        useregex: bool,
    ) -> (r: Result<ProcessedText<Vec<String>>, String>)
        ensures
            r is Err <==> (useregex && !regex_compiles(delimiter@)),
            r matches Ok(p) ==> string_views(p.result_text@) == columns_of(
                rows_of(text@, delimiter@, trimparts, useregex),
            ) && p.removed_lines == 0,
    {
        let re = if useregex {
            match compile(delimiter) {
                Some(m) => Some(m),
                None => {
                    return Err("⚠ Ungültiges Regex-Pattern".to_string());
                },
            }
        } else {
            None
        };
        let lines = split_lines(&chars_of(text));
        let ghost model = rows_of(text@, delimiter@, trimparts, useregex);
        let mut rows: Vec<Vec<Vec<char>>> = Vec::new();
        for i in 0..lines.len()
            invariant
                views(lines@) == lines_of(text@),
                model == rows_of(text@, delimiter@, trimparts, useregex),
                re is Some == useregex,
                re matches Some(m) ==> m.pattern() == delimiter@,
                rows.len() == i,
                table_view(rows@) == model.take(i as int),
        {
            let parts = line_parts(&lines[i], delimiter, trimparts, &re);
            assert(views(lines@)[i as int] == lines@[i as int]@);
            rows.push(parts);
            assert(table_view(rows@) =~= model.take(i + 1));
        }
        assert(model.take(lines.len() as int) =~= model);
        let cols = assemble_columns(&rows);
        Ok(ProcessedText { result_text: cols, removed_lines: 0 })
    }

    /// Joins the two texts line by line: line `i` of `text1`, `separator`,
    /// line `i` of `text2`, a missing line counting as empty; the rows are
    /// joined by newlines.
    pub fn connect_texts(text1: &str, text2: &str, separator: &str) -> (r: Result<String, String>)
        ensures
            r matches Ok(s) && s@ == join(
                connected_rows(lines_of(text1@), lines_of(text2@), separator@),
                seq!['\n'],
            ),
    {
        let l1 = split_lines(&chars_of(text1));
        let l2 = split_lines(&chars_of(text2));
        let sep = chars_of(separator);
        let n = if l1.len() > l2.len() {
            l1.len()
        } else {
            l2.len()
        };
        let ghost model = connected_rows(views(l1@), views(l2@), sep@);
        let mut rows: Vec<Vec<char>> = Vec::new();
        for i in 0..n
            invariant
                n == model.len(),
                model == connected_rows(views(l1@), views(l2@), sep@),
                rows.len() == i,
                views(rows@) == model.take(i as int),
        {
            let mut row: Vec<char> = if i < l1.len() {
                crate::text::copy_chars(&l1[i])
            } else {
                Vec::new()
            };
            let ghost first = row@;
            assert(first == line_or_empty(views(l1@), i as int));
            for k in 0..sep.len()
                invariant
                    row@ == first + sep@.take(k as int),
            {
                row.push(sep[k]);
                assert(sep@.take(k + 1) =~= sep@.take(k as int).push(sep@[k as int]));
            }
            assert(sep@.take(sep.len() as int) =~= sep@);
            let ghost mid = row@;
            if i < l2.len() {
                let other = &l2[i];
                for k in 0..other.len()
                    invariant
                        row@ == mid + other@.take(k as int),
                {
                    row.push(other[k]);
                    assert(other@.take(k + 1) =~= other@.take(k as int).push(other@[k as int]));
                }
                assert(other@.take(other.len() as int) =~= other@);
                assert(views(l2@)[i as int] == other@);
            } else {
                assert(row@ =~= mid + Seq::<char>::empty());
            }
            rows.push(row);
            assert(views(rows@) =~= model.take(i + 1));
        }
        assert(model.take(n as int) =~= model);
        let newline: Vec<char> = vec!['\n'];
        let joined = crate::text::join_chars(&rows, &newline);
        assert(newline@ =~= seq!['\n']);
        Ok(string_of(&joined))
    }
}

} // verus!
