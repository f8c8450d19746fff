//! A checker for bracket pairing in line-oriented text: brackets are matched by
//! their family and by the indentation of the lines they stand on.
use vstd::prelude::*;

pub mod brackets;
pub mod matcher;
pub mod tokenizer;

use crate::matcher::{
    Diagnostic, ScanReport, lemma_diagnostics_in_reading_order, reported_in_reading_order, scan,
    scan_spec,
};
use crate::tokenizer::{chars_of_lines, lemma_tokens_order, tokenize, tokens_of};

verus! {

/// All diagnostics of a check of `lines`, in the order they are reported.
pub open spec fn check_spec(lines: Seq<Seq<char>>) -> Seq<Diagnostic> {
    scan_spec(tokens_of(lines))
}

/// Checks the brackets of `lines` (each without its line terminator) and
/// reports every problem found, with their number.
pub fn check_braces(lines: &Vec<Vec<char>>) -> (r: ScanReport)
    ensures
        r.diagnostics@ == check_spec(chars_of_lines(lines@)),
        r.error_count == r.diagnostics@.len(),
{
    let occs = tokenize(lines);
    scan(&occs)
}

/// Two checks of the same lines report the same diagnostics and the same count:
/// a check depends on its input alone.
pub proof fn lemma_check_repeatable(lines1: Seq<Seq<char>>, lines2: Seq<Seq<char>>)
    requires
        lines1 == lines2,
    ensures
        check_spec(lines1) == check_spec(lines2),
        check_spec(lines1).len() == check_spec(lines2).len(),
{
}

/// A check reports the diagnostics of closers in the order in which their
/// closers are read, then those of unclosed openers in the order in which
/// those were read.
pub proof fn lemma_check_in_reading_order(lines: Seq<Seq<char>>)
    requires
        lines.len() <= usize::MAX,
        forall|l: int| 0 <= l < lines.len() ==> (#[trigger] lines[l]).len() <= usize::MAX,
    ensures
        reported_in_reading_order(check_spec(lines)),
{
    lemma_tokens_order(lines);
    lemma_diagnostics_in_reading_order(tokens_of(lines));
}

} // verus!
