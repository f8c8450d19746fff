use vstd::prelude::*;

verus! {

/// The three bracket families.
#[derive(Clone, Copy, Debug, PartialEq, Eq, Structural)]
pub enum BracketKind {
    Round,
    Curly,
    Square,
}

/// One bracket character found in the input, with the indentation of its line.
#[derive(Clone, Copy, Debug, PartialEq, Eq, Structural)]
pub struct BracketOccurrence {
    pub kind: BracketKind,
    pub is_open: bool,
    pub indent_level: usize,
    pub line: usize,
    pub column: usize,
}

/// The bracket glyph that `c` is, as (is it an opener, its family).
pub open spec fn glyph_of(c: char) -> Option<(bool, BracketKind)> {
    if c == '(' {
        Some((true, BracketKind::Round))
    } else if c == '{' {
        Some((true, BracketKind::Curly))
    } else if c == '[' {
        Some((true, BracketKind::Square))
    } else if c == ')' {
        Some((false, BracketKind::Round))
    } else if c == '}' {
        Some((false, BracketKind::Curly))
    } else if c == ']' {
        Some((false, BracketKind::Square))
    } else {
        None
    }
}

/// The glyph of a bracket of family `t`, opening or closing.
pub open spec fn char_of(open: bool, t: BracketKind) -> char {
    match t {
        BracketKind::Round => if open { '(' } else { ')' },
        BracketKind::Curly => if open { '{' } else { '}' },
        BracketKind::Square => if open { '[' } else { ']' },
    }
}

/// `a` stands no later than `b` in reading order: top to bottom, then left to right.
pub open spec fn read_no_later(a: BracketOccurrence, b: BracketOccurrence) -> bool {
    a.line < b.line || (a.line == b.line && a.column <= b.column)
}

/// The occurrences stand in reading order.
pub open spec fn in_reading_order(occs: Seq<BracketOccurrence>) -> bool {
    forall|i: int, j: int| 0 <= i < j < occs.len() ==> #[trigger] read_no_later(occs[i], occs[j])
}

/// Classifies one character as a bracket glyph, or `None` for any other character.
pub fn classify(c: char) -> (r: Option<(bool, BracketKind)>)
    ensures
        r == glyph_of(c),
{
    match c {
        '(' => Some((true, BracketKind::Round)),
        '{' => Some((true, BracketKind::Curly)),
        '[' => Some((true, BracketKind::Square)),
        ')' => Some((false, BracketKind::Round)),
        '}' => Some((false, BracketKind::Curly)),
        ']' => Some((false, BracketKind::Square)),
        _ => None,
    }
}

/// The glyph of a bracket of family `t`; `classify` maps it back.
pub fn to_char(open: bool, t: BracketKind) -> (r: char)
    ensures
        r == char_of(open, t),
        glyph_of(r) == Some((open, t)),
{
    match (open, t) {
        (true, BracketKind::Round) => '(',
        (true, BracketKind::Square) => '[',
        (true, BracketKind::Curly) => '{',
        (false, BracketKind::Round) => ')',
        (false, BracketKind::Square) => ']',
        (false, BracketKind::Curly) => '}',
    }
}

impl BracketOccurrence {
    /// The glyph of this occurrence.
    pub fn glyph(&self) -> (r: char)
        ensures
            r == char_of(self.is_open, self.kind),
    {
        to_char(self.is_open, self.kind)
    }
}

} // verus!
