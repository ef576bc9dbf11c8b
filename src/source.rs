//! Source normalization: comments, whitespace and blank lines are removed from
//! the raw program text, leaving one entry per meaningful line.
use vstd::prelude::*;

verus! {

broadcast use vstd::string::group_string_axioms;

/// Number of characters from `i` up to the newline that ends the line, or
/// up to the end of the text when that line has no newline.
pub open spec fn line_len(t: Seq<char>, i: int) -> nat
    decreases t.len() - i,
{
    if i < 0 || i >= t.len() || t[i] == '\n' {
        0
    } else {
        1 + line_len(t, i + 1)
    }
}

/// The line that runs from `i` up to its end `e`; a carriage return right
/// before the newline belongs to the line ending, not to the line.
pub open spec fn line_body(t: Seq<char>, i: int, e: int) -> Seq<char> {
    if i < e < t.len() && t[e - 1] == '\r' {
        t.subrange(i, e - 1)
    } else {
        t.subrange(i, e)
    }
}

/// Index of the first `//` at or after `j`, or the line's length if none.
pub open spec fn comment_from(l: Seq<char>, j: int) -> int
    decreases l.len() - j,
{
    if j < 0 || j + 1 >= l.len() {
        l.len() as int
    } else if l[j] == '/' && l[j + 1] == '/' {
        j
    } else {
        comment_from(l, j + 1)
    }
}

/// Whether `c` is a whitespace character: one with the Unicode `White_Space`
/// property.
pub open spec fn is_space(c: char) -> bool {
    c == '\t' || c == '\n' || c == '\u{0B}' || c == '\u{0C}' || c == '\r' || c == ' '
        || c == '\u{85}' || c == '\u{A0}' || c == '\u{1680}' || ('\u{2000}' <= c && c <= '\u{200A}')
        || c == '\u{2028}' || c == '\u{2029}' || c == '\u{202F}' || c == '\u{205F}' || c
        == '\u{3000}'
}

/// Whether `c` is a whitespace character: see `is_space`.
pub fn is_whitespace_char(c: char) -> (r: bool)
    ensures
        r == is_space(c),
{
    c == '\t' || c == '\n' || c == '\u{0B}' || c == '\u{0C}' || c == '\r' || c == ' '
        || c == '\u{85}' || c == '\u{A0}' || c == '\u{1680}' || ('\u{2000}' <= c && c <= '\u{200A}')
        || c == '\u{2028}' || c == '\u{2029}' || c == '\u{202F}' || c == '\u{205F}' || c
        == '\u{3000}'
}

/// A line with its comment cut off and every whitespace character removed.
pub open spec fn clean_line(l: Seq<char>) -> Seq<char> {
    l.take(comment_from(l, 0)).filter(|c: char| !is_space(c))
}

/// The cleaned, non-empty lines of `t` from position `i` on.
pub open spec fn cleaned_from(t: Seq<char>, i: int) -> Seq<Seq<char>>
    decreases t.len() - i,
{
    if i < 0 || i >= t.len() {
        seq![]
    } else {
        let e = i + line_len(t, i);
        let l = clean_line(line_body(t, i, e));
        let rest = if e < t.len() {
            cleaned_from(t, e + 1)
        } else {
            seq![]
        };
        if l.len() == 0 {
            rest
        } else {
            seq![l] + rest
        }
    }
}

/// The meaningful lines of a program text, in order.
pub open spec fn normalized(t: Seq<char>) -> Seq<Seq<char>> {
    cleaned_from(t, 0)
}

/// The values of a vector of lines.
pub open spec fn lines_view(v: Seq<Vec<char>>) -> Seq<Seq<char>> {
    v.map_values(|l: Vec<char>| l@)
}


/// The characters of `text`, in order.
pub fn chars_of(text: &str) -> (r: Vec<char>)
    ensures
        r@ == text@,
{
    let mut out: Vec<char> = Vec::new();
    for c in it: text.chars()
        invariant
            out@ == it.seq().take(it.index() as int),
    {
        out.push(c);
    }
    assert(out@ =~= text@);
    out
}

/// Cleans the part `t[from..to]` of the text: see `clean_line`.
fn clean_range(t: &Vec<char>, from: usize, to: usize) -> (r: Vec<char>)
    requires
        from <= to <= t@.len(),
    ensures
        r@ == clean_line(t@.subrange(from as int, to as int)),
{
    let ghost l = t@.subrange(from as int, to as int);
    let mut j: usize = from;
    while to - j > 1 && !(t[j] == '/' && t[j + 1] == '/')
        invariant
            from <= j <= to <= t@.len(),
            l == t@.subrange(from as int, to as int),
            comment_from(l, (j - from) as int) == comment_from(l, 0),
        decreases to - j,
    {
        j = j + 1;
    }
    let stop: usize = if to - j > 1 { j } else { to };
    assert(comment_from(l, 0) == stop - from);
    let ghost kept = l.take(stop - from);
    let mut out: Vec<char> = Vec::new();
    let mut k: usize = from;
    while k < stop
        invariant
            from <= k <= stop <= to <= t@.len(),
            l == t@.subrange(from as int, to as int),
            kept == l.take(stop - from),
            out@ == kept.take(k - from).filter(|c: char| !is_space(c)),
        decreases stop - k,
    {
        proof {
            reveal(Seq::filter);
            assert(kept.take(k + 1 - from).drop_last() =~= kept.take(k - from));
            assert(kept.take(k + 1 - from).last() == t@[k as int]);
        }
        if !is_whitespace_char(t[k]) {
            out.push(t[k]);
        }
        k = k + 1;
    }
    assert(kept.take(stop - from) =~= kept);
    out
}

/// The meaningful lines of `text`: each physical line is cut at its first
/// `//`, stripped of whitespace, and dropped if nothing is left.
pub fn file_cleaner(text: &str) -> (r: Vec<Vec<char>>)
    ensures
        lines_view(r@) == normalized(text@),
{
    let t = chars_of(text);
    let n = t.len();
    let mut out: Vec<Vec<char>> = Vec::new();
    let mut i: usize = 0;
    while i < n
        invariant
            n == t@.len(),
            t@ == text@,
            i <= n,
            lines_view(out@) + cleaned_from(t@, i as int) == normalized(t@),
        decreases n - i,
    {
        let mut e: usize = i;
        while e < n && t[e] != '\n'
            invariant
                n == t@.len(),
                i <= e <= n,
                e - i + line_len(t@, e as int) == line_len(t@, i as int),
            decreases n - e,
        {
            e = e + 1;
        }
        let stop: usize = if i < e && e < n && t[e - 1] == '\r' { e - 1 } else { e };
        let line = clean_range(&t, i, stop);
        let ghost before = lines_view(out@);
        if line.len() > 0 {
            out.push(line);
            assert(lines_view(out@) =~= before.push(line@));
        }
        i = if e < n { e + 1 } else { n };
    }
    out
}

} // verus!
