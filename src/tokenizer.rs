use vstd::prelude::*;

use crate::brackets::{BracketOccurrence, classify, glyph_of, in_reading_order, read_no_later};

verus! {

/// Whether a character has Unicode's White_Space property.
pub uninterp spec fn white_space(c: char) -> bool;

/// Relies on `char::is_whitespace`: true exactly for the characters with the
/// White_Space property, a function of the character alone.
#[verifier::external_body]
fn is_white_space(c: char) -> (r: bool)
    ensures
        r == white_space(c),
{
    c.is_whitespace()
}

/// The position of the first non-whitespace character of `line` at or after
/// `k`, or the length of `line` if there is none.
pub open spec fn first_non_white_from(line: Seq<char>, k: int) -> int
    decreases line.len() - k,
{
    if k < 0 || k >= line.len() || !white_space(line[k]) {
        k
    } else {
        first_non_white_from(line, k + 1)
    }
}

/// The indentation of a line: the number of leading whitespace characters.
pub open spec fn indent_of(line: Seq<char>) -> int {
    first_non_white_from(line, 0)
}

/// The bracket occurrences of one line, in column order.
pub open spec fn line_tokens(line: Seq<char>, line_no: usize, indent: usize) -> Seq<BracketOccurrence>
    decreases line.len(),
{
    if line.len() == 0 {
        seq![]
    } else {
        let prev = line_tokens(line.drop_last(), line_no, indent);
        match glyph_of(line.last()) {
            Some((open, kind)) => prev.push(
                BracketOccurrence {
                    kind,
                    is_open: open,
                    indent_level: indent,
                    line: line_no,
                    column: (line.len() - 1) as usize,
                },
            ),
            None => prev,
        }
    }
}

/// The bracket occurrences of all lines, top to bottom and left to right.
pub open spec fn tokens_of(lines: Seq<Seq<char>>) -> Seq<BracketOccurrence>
    decreases lines.len(),
{
    if lines.len() == 0 {
        seq![]
    } else {
        let line = lines.last();
        tokens_of(lines.drop_last()) + line_tokens(
            line,
            (lines.len() - 1) as usize,
            indent_of(line) as usize,
        )
    }
}

/// The characters of each line.
pub open spec fn chars_of_lines(lines: Seq<Vec<char>>) -> Seq<Seq<char>> {
    lines.map_values(|l: Vec<char>| l@)
}

/// The occurrences of one line stand on that line, inside it, in column order.
proof fn lemma_line_tokens_order(line: Seq<char>, line_no: usize, indent: usize)
    requires
        line.len() <= usize::MAX,
    ensures
        forall|k: int|
            0 <= k < line_tokens(line, line_no, indent).len() ==> (#[trigger] line_tokens(
                line,
                line_no,
                indent,
            )[k]).line == line_no && line_tokens(line, line_no, indent)[k].column < line.len(),
        in_reading_order(line_tokens(line, line_no, indent)),
    decreases line.len(),
{
    if line.len() > 0 {
        lemma_line_tokens_order(line.drop_last(), line_no, indent);
    }
}

/// The occurrences of all lines stand on those lines, in reading order.
pub proof fn lemma_tokens_order(lines: Seq<Seq<char>>)
    requires
        lines.len() <= usize::MAX,
        forall|l: int| 0 <= l < lines.len() ==> (#[trigger] lines[l]).len() <= usize::MAX,
    ensures
        forall|k: int| 0 <= k < tokens_of(lines).len() ==> (#[trigger] tokens_of(lines)[k]).line < lines.len(),
        in_reading_order(tokens_of(lines)),
    decreases lines.len(),
{
    if lines.len() > 0 {
        let front = lines.drop_last();
        let line = lines.last();
        let no = (lines.len() - 1) as usize;
        let ind = indent_of(line) as usize;
        assert(line == lines[lines.len() - 1]);
        lemma_tokens_order(front);
        lemma_line_tokens_order(line, no, ind);
        let a = tokens_of(front);
        let b = line_tokens(line, no, ind);
        let t = tokens_of(lines);
        assert(t == a + b);
        assert forall|k: int| 0 <= k < t.len() implies (#[trigger] t[k]).line < lines.len() by {
            if k >= a.len() {
                assert(t[k] == b[k - a.len()]);
            }
        }
        assert forall|i: int, j: int| 0 <= i < j < t.len() implies #[trigger] read_no_later(t[i], t[j]) by {
            if i >= a.len() {
                assert(t[i] == b[i - a.len()]);
                assert(t[j] == b[j - a.len()]);
                assert(read_no_later(b[i - a.len()], b[j - a.len()]));
            } else if j >= a.len() {
                assert(t[j] == b[j - a.len()]);
                assert(t[i].line < front.len());
            } else {
                assert(read_no_later(a[i], a[j]));
            }
        }
    }
}

/// Counts the leading whitespace characters of a line.
pub fn indent_level(line: &Vec<char>) -> (r: usize)
    ensures
        r == indent_of(line@),
{
    let mut k: usize = 0;
    while k < line.len() && is_white_space(line[k])
        invariant
            k <= line@.len(),
            first_non_white_from(line@, k as int) == indent_of(line@),
        decreases line.len() - k,
    {
        k = k + 1;
    }
    k
}

/// The bracket occurrences of one line, numbered `line_no`, whose indentation
/// is `indent`.
pub fn tokenize_line(line: &Vec<char>, line_no: usize, indent: usize) -> (r: Vec<BracketOccurrence>)
    ensures
        r@ == line_tokens(line@, line_no, indent),
{
    let mut out: Vec<BracketOccurrence> = Vec::new();
    let mut j: usize = 0;
    while j < line.len()
        invariant
            j <= line@.len(),
            out@ == line_tokens(line@.take(j as int), line_no, indent),
        decreases line.len() - j,
    {
        assert(line@.take(j + 1).drop_last() =~= line@.take(j as int));
        if let Some((open, kind)) = classify(line[j]) {
            out.push(
                BracketOccurrence { kind, is_open: open, indent_level: indent, line: line_no, column: j },
            );
        }
        j = j + 1;
    }
    assert(line@.take(j as int) =~= line@);
    out
}

/// The bracket occurrences of all lines, in reading order.
pub fn tokenize(lines: &Vec<Vec<char>>) -> (r: Vec<BracketOccurrence>)
    ensures
        r@ == tokens_of(chars_of_lines(lines@)),
{
    let mut out: Vec<BracketOccurrence> = Vec::new();
    let mut l: usize = 0;
    while l < lines.len()
        invariant
            l <= lines@.len(),
            out@ == tokens_of(chars_of_lines(lines@).take(l as int)),
        decreases lines.len() - l,
    {
        let line = &lines[l];
        let indent = indent_level(line);
        let mut toks = tokenize_line(line, l, indent);
        proof {
            let all = chars_of_lines(lines@);
            assert(all.take(l + 1).drop_last() =~= all.take(l as int));
            assert(all.take(l + 1).last() == line@);
        }
        out.append(&mut toks);
        l = l + 1;
    }
    assert(chars_of_lines(lines@).take(l as int) =~= chars_of_lines(lines@));
    out
}

} // verus!
