use std::io::BufRead;

use brace_check::brackets::{BracketKind, BracketOccurrence, classify, to_char};
use brace_check::check_braces;
use brace_check::matcher::{Decision, Diagnostic, DiagnosticKind, decide, scan};
use brace_check::tokenizer::{indent_level, tokenize, tokenize_line};

fn lines_of(input: &str) -> Vec<Vec<char>> {
    input.as_bytes().lines().map(|l| l.unwrap().chars().collect()).collect()
}

fn kinds_of(input: &str) -> Vec<DiagnosticKind> {
    check_braces(&lines_of(input)).diagnostics.iter().map(|d| d.kind).collect()
}

fn occ(kind: BracketKind, is_open: bool, indent_level: usize, line: usize, column: usize) -> BracketOccurrence {
    BracketOccurrence { kind, is_open, indent_level, line, column }
}

#[test]
fn count_equals_number_of_diagnostics() {
    for input in ["", "(", "(]\n)", "{\n\t{\n}", "\t{\n}\n]]", "a [ b ( c } d"] {
        let r = check_braces(&lines_of(input));
        assert_eq!(r.error_count, r.diagnostics.len());
    }
}

#[test]
fn every_kind_pairs_cleanly() {
    for input in ["()", "{}", "[]", "  (x)", "\t{\n\t}", "a[b]c"] {
        assert_eq!(check_braces(&lines_of(input)).error_count, 0);
    }
}

#[test]
fn lone_openers_are_unclosed() {
    for input in ["(", "{", "["] {
        assert_eq!(kinds_of(input), vec![DiagnosticKind::UnclosedOpen]);
    }
}

#[test]
fn lone_closers_are_unmatched() {
    for input in [")", "]", "}"] {
        assert_eq!(kinds_of(input), vec![DiagnosticKind::UnmatchedClose]);
    }
}

#[test]
fn over_indented_closer_keeps_its_opener() {
    assert_eq!(kinds_of("{\n\t}\n}"), vec![DiagnosticKind::OverIndentedClose]);
    let r = check_braces(&lines_of("{\n\t}"));
    assert_eq!(r.error_count, 2);
    assert_eq!(
        r.diagnostics[0],
        Diagnostic {
            kind: DiagnosticKind::OverIndentedClose,
            at: occ(BracketKind::Curly, false, 1, 1, 1),
            opener: Some(occ(BracketKind::Curly, true, 0, 0, 0)),
        }
    );
    assert_eq!(
        r.diagnostics[1],
        Diagnostic { kind: DiagnosticKind::UnclosedOpen, at: occ(BracketKind::Curly, true, 0, 0, 0), opener: None }
    );
}

#[test]
fn under_indented_closer_is_retried() {
    assert_eq!(kinds_of("{\n\t{\n}"), vec![DiagnosticKind::UnderIndentedClose]);
    let r = check_braces(&lines_of("\t{\n}"));
    assert_eq!(
        r.diagnostics,
        vec![
            Diagnostic {
                kind: DiagnosticKind::UnderIndentedClose,
                at: occ(BracketKind::Curly, false, 0, 1, 0),
                opener: Some(occ(BracketKind::Curly, true, 1, 0, 1)),
            },
            Diagnostic { kind: DiagnosticKind::UnmatchedClose, at: occ(BracketKind::Curly, false, 0, 1, 0), opener: None },
        ]
    );
}

#[test]
fn type_mismatch_drops_both() {
    let r = check_braces(&lines_of("(]"));
    assert_eq!(
        r.diagnostics,
        vec![Diagnostic {
            kind: DiagnosticKind::TypeMismatch,
            at: occ(BracketKind::Square, false, 0, 0, 1),
            opener: Some(occ(BracketKind::Round, true, 0, 0, 0)),
        }]
    );
}

#[test]
fn indentation_masks_type() {
    assert_eq!(kinds_of("{\n\t)"), vec![DiagnosticKind::OverIndentedClose, DiagnosticKind::UnclosedOpen]);
    assert_eq!(kinds_of("\t{\n)"), vec![DiagnosticKind::UnderIndentedClose, DiagnosticKind::UnmatchedClose]);
}

#[test]
fn unclosed_reported_oldest_first() {
    let r = check_braces(&lines_of("(\n  [\n    {"));
    let lines: Vec<usize> = r.diagnostics.iter().map(|d| d.at.line).collect();
    assert_eq!(lines, vec![0, 1, 2]);
    assert!(r.diagnostics.iter().all(|d| d.kind == DiagnosticKind::UnclosedOpen));
}

#[test]
fn scanning_twice_gives_the_same_report() {
    let lines = lines_of("{\n\t}\n(]\n\t[\n)");
    let a = check_braces(&lines);
    let b = check_braces(&lines);
    assert_eq!(a.diagnostics, b.diagnostics);
    assert_eq!(a.error_count, b.error_count);
}

#[test]
fn separate_groups_keep_their_order() {
    let a = vec![occ(BracketKind::Round, true, 0, 0, 0), occ(BracketKind::Square, false, 0, 0, 1)];
    let b = vec![occ(BracketKind::Curly, false, 0, 1, 0), occ(BracketKind::Round, true, 0, 1, 1)];
    let mut ab = a.clone();
    ab.extend(b.iter().copied());
    let mut expected = scan(&a).diagnostics;
    expected.extend(scan(&b).diagnostics);
    let got = scan(&ab).diagnostics;
    assert_eq!(got, expected);
    let kinds: Vec<DiagnosticKind> = got.iter().map(|d| d.kind).collect();
    assert_eq!(
        kinds,
        vec![DiagnosticKind::TypeMismatch, DiagnosticKind::UnmatchedClose, DiagnosticKind::UnclosedOpen]
    );
}

#[test]
fn indent_counts_each_whitespace_character_once() {
    assert_eq!(indent_level(&"\t  x(".chars().collect()), 3);
    assert_eq!(indent_level(&"x  ".chars().collect()), 0);
    assert_eq!(indent_level(&"   ".chars().collect()), 3);
    assert_eq!(indent_level(&"".chars().collect()), 0);
    assert_eq!(indent_level(&"\u{3000}\u{a0}{".chars().collect()), 2);
}

#[test]
fn tokenize_line_records_positions() {
    let line: Vec<char> = "a(b]c".chars().collect();
    assert_eq!(
        tokenize_line(&line, 4, 2),
        vec![occ(BracketKind::Round, true, 2, 4, 1), occ(BracketKind::Square, false, 2, 4, 3)]
    );
    assert!(tokenize_line(&"no brackets".chars().collect(), 0, 0).is_empty());
}

#[test]
fn tokenize_uses_each_lines_indent() {
    let toks = tokenize(&lines_of("{\n  x }\n\t[ ]"));
    assert_eq!(
        toks,
        vec![
            occ(BracketKind::Curly, true, 0, 0, 0),
            occ(BracketKind::Curly, false, 2, 1, 4),
            occ(BracketKind::Square, true, 1, 2, 1),
            occ(BracketKind::Square, false, 1, 2, 3),
        ]
    );
}

#[test]
fn classify_and_to_char_agree() {
    for c in ['(', ')', '{', '}', '[', ']'] {
        let (open, kind) = classify(c).unwrap();
        assert_eq!(to_char(open, kind), c);
    }
    assert_eq!(classify('('), Some((true, BracketKind::Round)));
    assert_eq!(classify('}'), Some((false, BracketKind::Curly)));
    assert_eq!(classify('a'), None);
    assert_eq!(classify('<'), None);
}

#[test]
fn decide_each_outcome() {
    let open0 = occ(BracketKind::Round, true, 0, 0, 0);
    let close = |k, lvl| occ(k, false, lvl, 1, 0);
    assert_eq!(decide(&open0, None), Decision::Push);
    assert_eq!(decide(&close(BracketKind::Round, 0), None), Decision::UnmatchedClose);
    assert_eq!(decide(&close(BracketKind::Round, 1), Some(open0)), Decision::OverIndented);
    let open2 = occ(BracketKind::Round, true, 2, 0, 2);
    assert_eq!(decide(&close(BracketKind::Round, 1), Some(open2)), Decision::UnderIndented);
    assert_eq!(decide(&close(BracketKind::Curly, 0), Some(open0)), Decision::TypeMismatch);
    assert_eq!(decide(&close(BracketKind::Round, 0), Some(open0)), Decision::Matched);
}
