//! Character-level primitives shared by every operation: lines, joining,
//! whitespace, trimming and whitespace collapsing.

use vstd::prelude::*;

verus! {

/// The views of a sequence of character vectors.
pub open spec fn views(v: Seq<Vec<char>>) -> Seq<Seq<char>> {
    v.map_values(|x: Vec<char>| x@)
}

/// The pieces of `s` between `'\n'` characters; always at least one piece.
pub open spec fn pieces(s: Seq<char>) -> Seq<Seq<char>>
    decreases s.len(),
{
    if s.len() == 0 {
        seq![Seq::<char>::empty()]
    } else {
        let p = pieces(s.drop_last());
        if s.last() == '\n' {
            p.push(Seq::<char>::empty())
        } else {
            p.update(p.len() - 1, p.last().push(s.last()))
        }
    }
}

/// A piece that was followed by `'\n'` loses one trailing `'\r'`.
pub open spec fn strip_cr(l: Seq<char>) -> Seq<char> {
    if l.len() > 0 && l.last() == '\r' {
        l.drop_last()
    } else {
        l
    }
}

/// The lines of a text: split at `"\n"` or `"\r\n"`, the final line ending
/// being optional (an empty text has no lines).
pub open spec fn lines_of(s: Seq<char>) -> Seq<Seq<char>> {
    let p = pieces(s);
    let body = p.take(p.len() - 1).map_values(|l: Seq<char>| strip_cr(l));
    if p.last().len() == 0 {
        body
    } else {
        body.push(p.last())
    }
}

/// The parts joined, with `sep` between neighbours.
pub open spec fn join(parts: Seq<Seq<char>>, sep: Seq<char>) -> Seq<char>
    decreases parts.len(),
{
    if parts.len() == 0 {
        Seq::<char>::empty()
    } else if parts.len() == 1 {
        parts[0]
    } else {
        join(parts.drop_last(), sep) + sep + parts.last()
    }
}

/// Copies the characters of a string slice.
pub fn chars_of(s: &str) -> (r: Vec<char>)
    ensures
        r@ == s@,
{
    let mut r: Vec<char> = Vec::new();
    for c in it: s.chars()
        invariant
            r@ == it.seq().take(it.index() as int),
            it.seq() == s@,
    {
        r.push(c);
        assert(r@ == it.seq().take(it.index() + 1));
    }
    assert(r@ =~= s@);
    r
}

/// A copy of a character vector.
pub fn copy_chars(v: &Vec<char>) -> (r: Vec<char>)
    ensures
        r@ == v@,
{
    let mut r: Vec<char> = Vec::new();
    for i in 0..v.len()
        invariant
            r@ == v@.take(i as int),
    {
        r.push(v[i]);
        assert(v@.take(i + 1) == v@.take(i as int).push(v@[i as int]));
    }
    assert(v@.take(v.len() as int) =~= v@);
    r
}

/// Relies on `FromIterator<char> for String`: the string holds the characters in order.
#[verifier::external_body]
pub(crate) fn string_of(v: &Vec<char>) -> (r: String)
    ensures
        r@ == v@,
{
    String::from_iter(v.iter())
}

/// Whether two character vectors are equal.
pub fn same_chars(a: &Vec<char>, b: &Vec<char>) -> (r: bool)
    ensures
        r == (a@ == b@),
{
    if a.len() != b.len() {
        return false;
    }
    let mut i: usize = 0;
    while i < a.len()
        invariant
            a.len() == b.len(),
            i <= a.len(),
            a@.take(i as int) == b@.take(i as int),
        decreases a.len() - i,
    {
        if a[i] != b[i] {
            return false;
        }
        assert(a@.take(i + 1) == a@.take(i as int).push(a@[i as int]));
        assert(b@.take(i + 1) == b@.take(i as int).push(b@[i as int]));
        i = i + 1;
    }
    assert(a@ =~= a@.take(i as int));
    assert(b@ =~= b@.take(i as int));
    true
}

fn strip_cr_exec(v: Vec<char>) -> (r: Vec<char>)
    ensures
        r@ == strip_cr(v@),
{
    let mut v = v;
    if v.len() > 0 && v[v.len() - 1] == '\r' {
        v.pop();
    }
    v
}

/// Splits a text into its lines.
pub fn split_lines(s: &Vec<char>) -> (r: Vec<Vec<char>>)
    ensures
        views(r@) == lines_of(s@),
{
    let mut out: Vec<Vec<char>> = Vec::new();
    let mut cur: Vec<char> = Vec::new();
    for i in 0..s.len()
        invariant
            pieces(s@.take(i as int)).len() == out.len() + 1,
            views(out@) == pieces(s@.take(i as int)).take(out.len() as int).map_values(
                |l: Seq<char>| strip_cr(l),
            ),
            cur@ == pieces(s@.take(i as int)).last(),
    {
        let ghost pre = s@.take(i as int);
        assert(s@.take(i + 1).drop_last() == pre);
        let ghost p = pieces(pre);
        let c = s[i];
        if c == '\n' {
            let ghost before = views(out@);
            let stripped = strip_cr_exec(cur);
            out.push(stripped);
            cur = Vec::new();
            let ghost m = p.map_values(|l: Seq<char>| strip_cr(l));
            assert(p.push(Seq::<char>::empty()).take(p.len() as int) =~= p);
            assert(before =~= m.take(p.len() - 1));
            assert(views(out@) =~= before.push(strip_cr(p.last())));
            assert(m =~= m.take(p.len() - 1).push(strip_cr(p.last())));
            assert(views(out@) =~= pieces(s@.take(i + 1)).take(out.len() as int).map_values(
                |l: Seq<char>| strip_cr(l),
            ));
        } else {
            cur.push(c);
            let ghost q = p.update(p.len() - 1, p.last().push(c));
            assert(pieces(s@.take(i + 1)) == q);
            assert(q.take(out.len() as int) =~= p.take(out.len() as int));
            assert(views(out@) =~= pieces(s@.take(i + 1)).take(out.len() as int).map_values(
                |l: Seq<char>| strip_cr(l),
            ));
        }
    }
    assert(s@.take(s.len() as int) == s@);
    if cur.len() > 0 {
        out.push(cur);
    }
    assert(views(out@) =~= lines_of(s@));
    out
}


/// Joins the lines with `sep` between neighbours.
pub fn join_chars(parts: &Vec<Vec<char>>, sep: &Vec<char>) -> (r: Vec<char>)
    ensures
        r@ == join(views(parts@), sep@),
{
    let mut out: Vec<char> = Vec::new();
    for i in 0..parts.len()
        invariant
            out@ == join(views(parts@).take(i as int), sep@),
    {
        let ghost pv = views(parts@);
        assert(pv.take(i + 1).drop_last() =~= pv.take(i as int));
        if i > 0 {
            for k in 0..sep.len()
                invariant
                    out@ == join(pv.take(i as int), sep@) + sep@.take(k as int),
            {
                out.push(sep[k]);
                assert(sep@.take(k + 1) == sep@.take(k as int).push(sep@[k as int]));
            }
            assert(sep@.take(sep.len() as int) =~= sep@);
        }
        let ghost mid = out@;
        let line = &parts[i];
        for k in 0..line.len()
            invariant
                out@ == mid + line@.take(k as int),
        {
            out.push(line[k]);
            assert(line@.take(k + 1) == line@.take(k as int).push(line@[k as int]));
        }
        assert(line@.take(line.len() as int) =~= line@);
        assert(pv.take(i + 1).last() == line@);
        if i == 0 {
            assert(out@ =~= join(pv.take(i + 1), sep@));
        }
    }
    assert(views(parts@).take(parts.len() as int) =~= views(parts@));
    out
}

/// Characters with Unicode's `White_Space` property.
pub open spec fn white(c: char) -> bool {
    let u = c as u32;
    (0x9 <= u <= 0xd) || u == 0x20 || u == 0x85 || u == 0xa0 || u == 0x1680 || (0x2000 <= u
        <= 0x200a) || u == 0x2028 || u == 0x2029 || u == 0x202f || u == 0x205f || u == 0x3000
}

/// Whether `c` is whitespace, as `char::is_whitespace` decides it.
pub fn is_white(c: char) -> (r: bool)
    ensures
        r == white(c),
{
    let u = c as u32;
    (0x9 <= u && u <= 0xd) || u == 0x20 || u == 0x85 || u == 0xa0 || u == 0x1680 || (0x2000 <= u
        && u <= 0x200a) || u == 0x2028 || u == 0x2029 || u == 0x202f || u == 0x205f || u == 0x3000
}

/// `s` without its leading whitespace.
pub open spec fn trim_start(s: Seq<char>) -> Seq<char>
    decreases s.len(),
{
    if s.len() > 0 && white(s[0]) {
        trim_start(s.drop_first())
    } else {
        s
    }
}

/// `s` without its trailing whitespace.
pub open spec fn trim_end(s: Seq<char>) -> Seq<char>
    decreases s.len(),
{
    if s.len() > 0 && white(s.last()) {
        trim_end(s.drop_last())
    } else {
        s
    }
}

/// `s` without leading and trailing whitespace.
pub open spec fn trim(s: Seq<char>) -> Seq<char> {
    trim_end(trim_start(s))
}

/// Whether a line holds nothing but whitespace.
pub open spec fn blank(s: Seq<char>) -> bool {
    forall|i: int| 0 <= i < s.len() ==> white(#[trigger] s[i])
}

proof fn lemma_trim_end_shape(s: Seq<char>)
    ensures
        trim_end(s) == s.take(trim_end(s).len() as int),
        trim_end(s).len() <= s.len(),
        trim_end(s).len() == 0 || !white(trim_end(s).last()),
    decreases s.len(),
{
    if s.len() > 0 && white(s.last()) {
        lemma_trim_end_shape(s.drop_last());
        assert(s.drop_last().take(trim_end(s).len() as int) =~= s.take(trim_end(s).len() as int));
    } else {
        assert(s.take(s.len() as int) =~= s);
    }
}

proof fn lemma_trim_start_shape(s: Seq<char>)
    ensures
        trim_start(s).len() == 0 || !white(trim_start(s)[0]),
    decreases s.len(),
{
    if s.len() > 0 && white(s[0]) {
        lemma_trim_start_shape(s.drop_first());
    }
}

/// Trimming twice is trimming once.
pub proof fn lemma_trim_idempotent(s: Seq<char>)
    ensures
        trim(trim(s)) == trim(s),
{
    let t = trim_start(s);
    let e = trim_end(t);
    lemma_trim_start_shape(s);
    lemma_trim_end_shape(t);
    if e.len() > 0 {
        assert(e[0] == t[0]);
    }
    assert(trim_start(e) == e);
    assert(trim_end(e) == e);
}

/// Removes leading and trailing whitespace.
pub fn trim_chars(s: &Vec<char>) -> (r: Vec<char>)
    ensures
        r@ == trim(s@),
{
    let mut lo: usize = 0;
    assert(s@.subrange(0, s.len() as int) =~= s@);
    while lo < s.len() && is_white(s[lo])
        invariant
            lo <= s.len(),
            trim_start(s@) == trim_start(s@.subrange(lo as int, s.len() as int)),
        decreases s.len() - lo,
    {
        assert(s@.subrange(lo as int, s.len() as int).drop_first() =~= s@.subrange(
            lo + 1,
            s.len() as int,
        ));
        lo = lo + 1;
    }
    let mut hi: usize = s.len();
    assert(trim_start(s@.subrange(lo as int, s.len() as int)) == s@.subrange(lo as int, s.len() as int));
    while hi > lo && is_white(s[hi - 1])
        invariant
            lo <= hi <= s.len(),
            trim_start(s@) == s@.subrange(lo as int, s.len() as int),
            trim(s@) == trim_end(s@.subrange(lo as int, hi as int)),
        decreases hi - lo,
    {
        assert(s@.subrange(lo as int, hi as int).drop_last() =~= s@.subrange(
            lo as int,
            hi - 1,
        ));
        hi = hi - 1;
    }
    let mut r: Vec<char> = Vec::new();
    for k in lo..hi
        invariant
            lo <= hi <= s.len(),
            r@ == s@.subrange(lo as int, k as int),
    {
        r.push(s[k]);
        assert(s@.subrange(lo as int, k + 1) =~= s@.subrange(lo as int, k as int).push(s@[k as int]));
    }
    r
}

/// Collapsing state after reading `s`: the output so far, and whether a
/// space is owed before the next non-whitespace character.
pub open spec fn squeeze_state(s: Seq<char>) -> (Seq<char>, bool)
    decreases s.len(),
{
    if s.len() == 0 {
        (Seq::<char>::empty(), false)
    } else {
        let (o, pending) = squeeze_state(s.drop_last());
        let c = s.last();
        if white(c) {
            (o, o.len() > 0)
        } else if pending {
            (o.push(' ').push(c), false)
        } else {
            (o.push(c), false)
        }
    }
}

/// The words of `s` separated by single spaces: every run of whitespace
/// becomes one space and leading and trailing whitespace is dropped.
pub open spec fn squeeze(s: Seq<char>) -> Seq<char> {
    squeeze_state(s).0
}

/// Collapses whitespace runs to single spaces and trims.
pub fn squeeze_chars(s: &Vec<char>) -> (r: Vec<char>)
    ensures
        r@ == squeeze(s@),
{
    let mut out: Vec<char> = Vec::new();
    let mut pending = false;
    for i in 0..s.len()
        invariant
            (out@, pending) == squeeze_state(s@.take(i as int)),
    {
        assert(s@.take(i + 1).drop_last() =~= s@.take(i as int));
        let c = s[i];
        if is_white(c) {
            pending = out.len() > 0;
        } else {
            if pending {
                out.push(' ');
            }
            out.push(c);
            pending = false;
        }
    }
    assert(s@.take(s.len() as int) =~= s@);
    out
}

} // verus!
