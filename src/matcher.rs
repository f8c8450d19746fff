use vstd::prelude::*;

use crate::brackets::{BracketOccurrence, in_reading_order, read_no_later};

verus! {

/// What the matcher does with one occurrence, given the top of its stack.
#[derive(Clone, Copy, Debug, PartialEq, Eq, Structural)]
pub enum Decision {
    /// An opener: it goes onto the stack.
    Push,
    /// A closer met with an empty stack.
    UnmatchedClose,
    /// A closer indented more than the top opener: the opener stays.
    OverIndented,
    /// A closer indented less than the top opener: the opener is dropped and
    /// the closer is tried again.
    UnderIndented,
    /// A closer of another family than the top opener at the same indentation.
    TypeMismatch,
    /// A closer that pairs with the top opener.
    Matched,
}

/// The classification of a reported problem.
#[derive(Clone, Copy, Debug, PartialEq, Eq, Structural)]
pub enum DiagnosticKind {
    UnmatchedClose,
    OverIndentedClose,
    UnderIndentedClose,
    TypeMismatch,
    UnclosedOpen,
}

/// One reported problem: the offending occurrence `at`, and for the three
/// kinds that compare a closer with an opener, that opener.
#[derive(Clone, Copy, Debug, PartialEq, Eq, Structural)]
pub struct Diagnostic {
    pub kind: DiagnosticKind,
    pub at: BracketOccurrence,
    pub opener: Option<BracketOccurrence>,
}

/// The diagnostics of one scan, and how many there are.
#[derive(Clone, Debug)]
pub struct ScanReport {
    pub diagnostics: Vec<Diagnostic>,
    pub error_count: usize,
}

pub open spec fn decision_of(cur: BracketOccurrence, top: Option<BracketOccurrence>) -> Decision {
    if cur.is_open {
        Decision::Push
    } else {
        match top {
            None => Decision::UnmatchedClose,
            Some(t) => if t.indent_level < cur.indent_level {
                Decision::OverIndented
            } else if t.indent_level > cur.indent_level {
                Decision::UnderIndented
            } else if t.kind != cur.kind {
                Decision::TypeMismatch
            } else {
                Decision::Matched
            },
        }
    }
}

/// The top of a stack of openers, if any.
pub open spec fn top_of(stack: Seq<BracketOccurrence>) -> Option<BracketOccurrence> {
    if stack.len() == 0 {
        None
    } else {
        Some(stack.last())
    }
}

/// The diagnostic that a decision reports, if it reports one.
pub open spec fn emitted(
    d: Decision,
    cur: BracketOccurrence,
    top: Option<BracketOccurrence>,
) -> Seq<Diagnostic> {
    match d {
        Decision::UnmatchedClose => seq![
            Diagnostic { kind: DiagnosticKind::UnmatchedClose, at: cur, opener: None },
        ],
        Decision::OverIndented => seq![
            Diagnostic { kind: DiagnosticKind::OverIndentedClose, at: cur, opener: top },
        ],
        Decision::UnderIndented => seq![
            Diagnostic { kind: DiagnosticKind::UnderIndentedClose, at: cur, opener: top },
        ],
        Decision::TypeMismatch => seq![
            Diagnostic { kind: DiagnosticKind::TypeMismatch, at: cur, opener: top },
        ],
        _ => seq![],
    }
}

/// The matcher from position `i` on, with `stack` open: the diagnostics it
/// reports for closers, and the openers still open at the end.
pub open spec fn run(occs: Seq<BracketOccurrence>, i: int, stack: Seq<BracketOccurrence>) -> (
    Seq<Diagnostic>,
    Seq<BracketOccurrence>,
)
    decreases occs.len() - i, stack.len(),
{
    if i < 0 || i >= occs.len() {
        (seq![], stack)
    } else {
        let cur = occs[i];
        let top = top_of(stack);
        let d = decision_of(cur, top);
        let rest = match d {
            Decision::Push => run(occs, i + 1, stack.push(cur)),
            Decision::UnmatchedClose => run(occs, i + 1, stack),
            Decision::OverIndented => run(occs, i + 1, stack),
            Decision::UnderIndented => run(occs, i, stack.drop_last()),
            _ => run(occs, i + 1, stack.drop_last()),
        };
        (emitted(d, cur, top) + rest.0, rest.1)
    }
}

/// One `UnclosedOpen` diagnostic for each opener of `stack`, oldest first.
pub open spec fn unclosed(stack: Seq<BracketOccurrence>) -> Seq<Diagnostic> {
    stack.map_values(
        |o: BracketOccurrence| Diagnostic { kind: DiagnosticKind::UnclosedOpen, at: o, opener: None },
    )
}

/// All diagnostics of a scan of `occs`, in the order they are reported.
pub open spec fn scan_spec(occs: Seq<BracketOccurrence>) -> Seq<Diagnostic> {
    let r = run(occs, 0, seq![]);
    r.0 + unclosed(r.1)
}

/// Decides what to do with `cur` given the top of the stack.
pub fn decide(cur: &BracketOccurrence, top: Option<BracketOccurrence>) -> (r: Decision)
    ensures
        r == decision_of(*cur, top),
{
    if cur.is_open {
        return Decision::Push;
    }
    match top {
        None => Decision::UnmatchedClose,
        Some(t) => {
            if t.indent_level < cur.indent_level {
                Decision::OverIndented
            } else if t.indent_level > cur.indent_level {
                Decision::UnderIndented
            } else if t.kind != cur.kind {
                Decision::TypeMismatch
            } else {
                Decision::Matched
            }
        },
    }
}

/// Matches the occurrences, in order, with a stack of open brackets, and
/// reports every problem found.
pub fn scan(occs: &Vec<BracketOccurrence>) -> (r: ScanReport)
    ensures
        r.diagnostics@ == scan_spec(occs@),
        r.error_count == r.diagnostics@.len(),
{
    let ghost full = run(occs@, 0, seq![]);
    let mut stack: Vec<BracketOccurrence> = Vec::new();
    let mut diags: Vec<Diagnostic> = Vec::new();
    let mut i: usize = 0;
    while i < occs.len()
        invariant
            i <= occs.len(),
            diags@ + run(occs@, i as int, stack@).0 == full.0,
            run(occs@, i as int, stack@).1 == full.1,
        decreases occs.len() - i, stack.len(),
    {
        let cur = occs[i];
        let top = if stack.len() == 0 {
            None
        } else {
            Some(stack[stack.len() - 1])
        };
        let d = decide(&cur, top);
        let ghost before = diags@;
        let ghost next = match d {
            Decision::Push => run(occs@, i + 1, stack@.push(cur)),
            Decision::UnmatchedClose => run(occs@, i + 1, stack@),
            Decision::OverIndented => run(occs@, i + 1, stack@),
            Decision::UnderIndented => run(occs@, i as int, stack@.drop_last()),
            _ => run(occs@, i + 1, stack@.drop_last()),
        };
        assert(top == top_of(stack@));
        match d {
            Decision::Push => {
                stack.push(cur);
                i = i + 1;
            },
            Decision::UnmatchedClose => {
                diags.push(Diagnostic { kind: DiagnosticKind::UnmatchedClose, at: cur, opener: None });
                i = i + 1;
            },
            Decision::OverIndented => {
                diags.push(Diagnostic { kind: DiagnosticKind::OverIndentedClose, at: cur, opener: top });
                i = i + 1;
            },
            Decision::UnderIndented => {
                stack.pop();
                diags.push(Diagnostic { kind: DiagnosticKind::UnderIndentedClose, at: cur, opener: top });
            },
            Decision::TypeMismatch => {
                stack.pop();
                diags.push(Diagnostic { kind: DiagnosticKind::TypeMismatch, at: cur, opener: top });
                i = i + 1;
            },
            Decision::Matched => {
                stack.pop();
                i = i + 1;
            },
        }
        assert(diags@ =~= before + emitted(d, cur, top));
        assert(before + emitted(d, cur, top) + next.0 =~= before + (emitted(d, cur, top) + next.0));
    }
    let ghost closer_diags = diags@;
    let mut j: usize = 0;
    while j < stack.len()
        invariant
            j <= stack@.len(),
            stack@ == full.1,
            closer_diags == full.0,
            diags@ =~= closer_diags + unclosed(stack@).take(j as int),
        decreases stack.len() - j,
    {
        diags.push(Diagnostic { kind: DiagnosticKind::UnclosedOpen, at: stack[j], opener: None });
        j = j + 1;
    }
    assert(unclosed(stack@).take(stack@.len() as int) =~= unclosed(stack@));
    let n = diags.len();
    ScanReport { diagnostics: diags, error_count: n }
}

/// Running from position `p.len() + j` of `p + b` is running from `j` of `b`.
proof fn lemma_run_shift(
    p: Seq<BracketOccurrence>,
    b: Seq<BracketOccurrence>,
    j: int,
    stack: Seq<BracketOccurrence>,
)
    requires
        0 <= j <= b.len(),
    ensures
        run(p + b, p.len() + j, stack) == run(b, j, stack),
    decreases b.len() - j, stack.len(),
{
    if j < b.len() {
        let cur = b[j];
        assert((p + b)[p.len() + j] == cur);
        let d = decision_of(cur, top_of(stack));
        match d {
            Decision::Push => lemma_run_shift(p, b, j + 1, stack.push(cur)),
            Decision::UnmatchedClose => lemma_run_shift(p, b, j + 1, stack),
            Decision::OverIndented => lemma_run_shift(p, b, j + 1, stack),
            Decision::UnderIndented => lemma_run_shift(p, b, j, stack.drop_last()),
            _ => lemma_run_shift(p, b, j + 1, stack.drop_last()),
        }
    }
}

/// Running over `a + b` from a position of `a` runs over the rest of `a`, then
/// over `b` with the openers that `a` left.
proof fn lemma_run_concat(
    a: Seq<BracketOccurrence>,
    b: Seq<BracketOccurrence>,
    i: int,
    stack: Seq<BracketOccurrence>,
)
    requires
        0 <= i <= a.len(),
    ensures
        ({
            let ra = run(a, i, stack);
            let rb = run(b, 0, ra.1);
            run(a + b, i, stack) == (ra.0 + rb.0, rb.1)
        }),
    decreases a.len() - i, stack.len(),
{
    if i == a.len() {
        lemma_run_shift(a, b, 0, stack);
        assert(seq![] + run(b, 0, stack).0 =~= run(b, 0, stack).0);
    } else {
        let cur = a[i];
        assert((a + b)[i] == cur);
        let top = top_of(stack);
        let d = decision_of(cur, top);
        let (ni, ns) = match d {
            Decision::Push => (i + 1, stack.push(cur)),
            Decision::UnmatchedClose => (i + 1, stack),
            Decision::OverIndented => (i + 1, stack),
            Decision::UnderIndented => (i, stack.drop_last()),
            _ => (i + 1, stack.drop_last()),
        };
        lemma_run_concat(a, b, ni, ns);
        let ra = run(a, ni, ns);
        let rb = run(b, 0, ra.1);
        assert(emitted(d, cur, top) + (ra.0 + rb.0) =~= (emitted(d, cur, top) + ra.0) + rb.0);
    }
}

/// Groups that do not interact keep their order: when every opener of `a` is
/// closed within `a`, the scan of `a` followed by `b` reports the diagnostics of
/// `a` alone, then those of `b` alone.
pub proof fn lemma_groups_in_order(a: Seq<BracketOccurrence>, b: Seq<BracketOccurrence>)
    requires
        run(a, 0, seq![]).1.len() == 0,
    ensures
        scan_spec(a + b) == scan_spec(a) + scan_spec(b),
{
    lemma_run_concat(a, b, 0, seq![]);
    let ra = run(a, 0, seq![]);
    assert(ra.1 =~= seq![]);
    assert(unclosed(ra.1) =~= seq![]);
    let rb = run(b, 0, seq![]);
    assert(scan_spec(a) =~= ra.0);
    assert(ra.0 + rb.0 + unclosed(rb.1) =~= ra.0 + (rb.0 + unclosed(rb.1)));
}

/// An opener and a closer of one family at the same indentation pair up with
/// no diagnostic.
pub proof fn lemma_pair_matches(open: BracketOccurrence, close: BracketOccurrence)
    requires
        open.is_open,
        !close.is_open,
        open.kind == close.kind,
        open.indent_level == close.indent_level,
    ensures
        scan_spec(seq![open, close]).len() == 0,
{
    let occs = seq![open, close];
    let s1 = seq![].push(open);
    assert(top_of(s1) == Some(open));
    assert(s1.drop_last() =~= seq![]);
    assert(run(occs, 2, seq![]) == (Seq::<Diagnostic>::empty(), Seq::<BracketOccurrence>::empty()));
    assert(run(occs, 1, s1).0 =~= seq![]);
    assert(run(occs, 1, s1).1 =~= seq![]);
    assert(run(occs, 0, seq![]).1 =~= seq![]);
    assert(unclosed(seq![]) =~= seq![]);
}

/// A lone opener gives exactly one diagnostic, `UnclosedOpen`, at that opener.
pub proof fn lemma_lone_opener(open: BracketOccurrence)
    requires
        open.is_open,
    ensures
        scan_spec(seq![open]) == seq![
            Diagnostic { kind: DiagnosticKind::UnclosedOpen, at: open, opener: None },
        ],
{
    let occs = seq![open];
    assert(run(occs, 1, seq![open]) == (Seq::<Diagnostic>::empty(), seq![open]));
    assert(seq![].push(open) =~= seq![open]);
    assert(run(occs, 0, seq![]).0 =~= seq![]);
    assert(scan_spec(occs) =~= seq![
        Diagnostic { kind: DiagnosticKind::UnclosedOpen, at: open, opener: None },
    ]);
}

/// A lone closer gives exactly one diagnostic, `UnmatchedClose`, at that closer.
pub proof fn lemma_lone_closer(close: BracketOccurrence)
    requires
        !close.is_open,
    ensures
        scan_spec(seq![close]) == seq![
            Diagnostic { kind: DiagnosticKind::UnmatchedClose, at: close, opener: None },
        ],
{
    let occs = seq![close];
    assert(run(occs, 1, seq![]) == (Seq::<Diagnostic>::empty(), Seq::<BracketOccurrence>::empty()));
    assert(unclosed(seq![]) =~= seq![]);
    assert(scan_spec(occs) =~= seq![
        Diagnostic { kind: DiagnosticKind::UnmatchedClose, at: close, opener: None },
    ]);
}

/// Over occurrences in reading order, with openers that stand no later than
/// the next occurrence: the closer diagnostics from position `i` on stand in
/// reading order from `occs[i]`, and the openers left stay in reading order.
proof fn lemma_run_order(occs: Seq<BracketOccurrence>, i: int, stack: Seq<BracketOccurrence>)
    requires
        0 <= i <= occs.len(),
        in_reading_order(occs),
        in_reading_order(stack),
        i < occs.len() ==> forall|k: int| 0 <= k < stack.len() ==> read_no_later(#[trigger] stack[k], occs[i]),
    ensures
        ({
            let d = run(occs, i, stack).0;
            &&& forall|k: int| 0 <= k < d.len() ==> (#[trigger] d[k]).kind != DiagnosticKind::UnclosedOpen
            &&& i < occs.len() ==> forall|k: int| 0 <= k < d.len() ==> read_no_later(occs[i], #[trigger] d[k].at)
            &&& forall|j: int, k: int| 0 <= j < k < d.len() ==> read_no_later(#[trigger] d[j].at, #[trigger] d[k].at)
        }),
        in_reading_order(run(occs, i, stack).1),
    decreases occs.len() - i, stack.len(),
{
    if i < occs.len() {
        let cur = occs[i];
        let top = top_of(stack);
        let dec = decision_of(cur, top);
        let (ni, ns) = match dec {
            Decision::Push => (i + 1, stack.push(cur)),
            Decision::UnmatchedClose => (i + 1, stack),
            Decision::OverIndented => (i + 1, stack),
            Decision::UnderIndented => (i, stack.drop_last()),
            _ => (i + 1, stack.drop_last()),
        };
        assert(in_reading_order(ns));
        if ni < occs.len() {
            assert forall|k: int| 0 <= k < ns.len() implies read_no_later(#[trigger] ns[k], occs[ni]) by {
                if ni == i + 1 {
                    assert(read_no_later(occs[i], occs[i + 1]));
                    if k < stack.len() {
                        assert(read_no_later(stack[k], occs[i]));
                    }
                } else {
                    assert(ns[k] == stack[k]);
                }
            }
        }
        lemma_run_order(occs, ni, ns);
        let e = emitted(dec, cur, top);
        let r = run(occs, ni, ns).0;
        let d = run(occs, i, stack).0;
        assert(d == e + r);
        assert(forall|k: int| 0 <= k < e.len() ==> (#[trigger] e[k]).at == cur && e[k].kind
            != DiagnosticKind::UnclosedOpen);
        assert forall|k: int| 0 <= k < r.len() implies read_no_later(cur, #[trigger] r[k].at) by {
            if ni == i + 1 {
                assert(read_no_later(occs[i], occs[i + 1]));
            }
        }
        assert forall|k: int| 0 <= k < d.len() implies (#[trigger] d[k]).kind
            != DiagnosticKind::UnclosedOpen && read_no_later(cur, d[k].at) by {
            if k >= e.len() {
                assert(d[k] == r[k - e.len()]);
            }
        }
        assert forall|j: int, k: int| 0 <= j < k < d.len() implies read_no_later(
            #[trigger] d[j].at,
            #[trigger] d[k].at,
        ) by {
            if j >= e.len() {
                assert(d[j] == r[j - e.len()]);
                assert(d[k] == r[k - e.len()]);
            } else {
                assert(read_no_later(cur, d[k].at));
            }
        }
    }
}

/// Diagnostics that follow the input in reading order: those of closers
/// first, in the order of their closers, then those of unclosed openers, in the
/// order of their openers.
pub open spec fn reported_in_reading_order(d: Seq<Diagnostic>) -> bool {
    &&& forall|j: int, k: int|
        0 <= j < k < d.len() && (#[trigger] d[j]).kind == DiagnosticKind::UnclosedOpen
            ==> (#[trigger] d[k]).kind == DiagnosticKind::UnclosedOpen
    &&& forall|j: int, k: int|
        0 <= j < k < d.len() && ((#[trigger] d[j]).kind == DiagnosticKind::UnclosedOpen) == ((
        #[trigger] d[k]).kind == DiagnosticKind::UnclosedOpen) ==> read_no_later(d[j].at, d[k].at)
}

/// Over occurrences in reading order, diagnostics are reported in reading order.
pub proof fn lemma_diagnostics_in_reading_order(occs: Seq<BracketOccurrence>)
    requires
        in_reading_order(occs),
    ensures
        reported_in_reading_order(scan_spec(occs)),
{
    lemma_run_order(occs, 0, seq![]);
    let r = run(occs, 0, seq![]);
    let u = unclosed(r.1);
    let d = scan_spec(occs);
    assert(d == r.0 + u);
    assert forall|k: int| 0 <= k < d.len() implies (#[trigger] d[k]).kind
        == DiagnosticKind::UnclosedOpen <==> k >= r.0.len() by {
        if k >= r.0.len() {
            assert(d[k] == u[k - r.0.len()]);
        }
    }
    assert forall|j: int, k: int|
        0 <= j < k < d.len() && ((#[trigger] d[j]).kind == DiagnosticKind::UnclosedOpen) == ((
        #[trigger] d[k]).kind == DiagnosticKind::UnclosedOpen) implies read_no_later(d[j].at, d[k].at) by {
        if j >= r.0.len() {
            assert(d[j] == u[j - r.0.len()]);
            assert(d[k] == u[k - r.0.len()]);
            assert(read_no_later(r.1[j - r.0.len()], r.1[k - r.0.len()]));
        } else {
            assert(read_no_later(r.0[j].at, r.0[k].at));
        }
    }
}

} // verus!
