//! The line classifier: what a single line is, told by how it begins and
//! what it mentions. It keeps no state; the filters decide what a line means
//! in the state they are in.

use crate::blocks::Severity;
use crate::chars;
use crate::text;
use vstd::prelude::*;

verus! {

/// What a line is, seen by itself.
#[derive(Clone, Copy, Debug)]
pub enum LineKind {
    /// Chatter that no summary shows: downloads, locks, the final
    /// "Finished" line.
    Noise,
    /// The progress line of one unit; it is counted and not shown.
    ProgressMarker,
    /// The header of a diagnostic.
    DiagnosticStart(Severity),
    /// A line that sums up counts ("aborting due to", "generated N
    /// warnings"); it is dropped and counts for nothing.
    ResultSummary,
    /// A line of whitespace only.
    BlankLine,
    /// Anything else: part of a diagnostic if one is open.
    Other,
}

/// Whether the line, after its leading whitespace, begins with `word`.
pub open spec fn begins_with(line: Seq<char>, word: Seq<char>) -> bool {
    chars::starts_with(chars::trim_start(line), word)
}

/// Whether the line carries the mark of an error at its very start.
pub open spec fn is_error_start(line: Seq<char>) -> bool {
    chars::starts_with(line, "error["@) || chars::starts_with(line, "error:"@)
}

/// Whether the line carries the mark of a warning at its very start.
pub open spec fn is_warning_start(line: Seq<char>) -> bool {
    chars::starts_with(line, "warning:"@) || chars::starts_with(line, "warning["@)
}

/// Whether the line speaks of the end of a failed compilation.
pub open spec fn mentions_abort(line: Seq<char>) -> bool {
    chars::contains(line, "aborting due to"@) || chars::contains(line, "could not compile"@)
}

/// Whether the line speaks of how many warnings were generated.
pub open spec fn mentions_generated(line: Seq<char>) -> bool {
    chars::contains(line, "generated"@) && chars::contains(line, "warning"@)
}

/// Whether the line is a count summary: an error line that speaks of the
/// aborted compilation, or a `warning:` line that speaks of the warnings
/// generated.
pub open spec fn is_count_summary(line: Seq<char>) -> bool {
    ||| is_error_start(line) && mentions_abort(line)
    ||| chars::starts_with(line, "warning:"@) && mentions_generated(line)
}

/// What a line is by the diagnostic rules, once progress and chatter are
/// set aside.
pub open spec fn diagnostic_kind(line: Seq<char>) -> LineKind {
    if is_error_start(line) {
        if mentions_abort(line) {
            LineKind::ResultSummary
        } else {
            LineKind::DiagnosticStart(Severity::Error)
        }
    } else if chars::starts_with(line, "warning:"@) && mentions_generated(line) {
        LineKind::ResultSummary
    } else if is_warning_start(line) {
        LineKind::DiagnosticStart(Severity::Warning)
    } else if chars::is_blank(line) {
        LineKind::BlankLine
    } else {
        LineKind::Other
    }
}

/// Whether the line, after its leading whitespace, begins with `word`.
pub fn begins_with_word(line: &[char], word: &str) -> (b: bool)
    ensures
        b == begins_with(line@, word@),
{
    text::starts_with(text::trim_start(line), word)
}

/// Whether the line carries the mark of an error at its very start.
pub fn starts_error(line: &[char]) -> (b: bool)
    ensures
        b == is_error_start(line@),
{
    text::starts_with(line, "error[") || text::starts_with(line, "error:")
}

/// Whether the line carries the mark of a warning at its very start.
pub fn starts_warning(line: &[char]) -> (b: bool)
    ensures
        b == is_warning_start(line@),
{
    text::starts_with(line, "warning:") || text::starts_with(line, "warning[")
}

/// Whether the line speaks of the end of a failed compilation.
pub fn speaks_of_abort(line: &[char]) -> (b: bool)
    ensures
        b == mentions_abort(line@),
{
    text::contains(line, "aborting due to") || text::contains(line, "could not compile")
}

/// Whether the line speaks of how many warnings were generated.
pub fn speaks_of_generated(line: &[char]) -> (b: bool)
    ensures
        b == mentions_generated(line@),
{
    text::contains(line, "generated") && text::contains(line, "warning")
}

/// Classifies a line by the diagnostic rules.
pub fn classify_diagnostic(line: &[char]) -> (k: LineKind)
    ensures
        k == diagnostic_kind(line@),
{
    if starts_error(line) {
        if speaks_of_abort(line) {
            LineKind::ResultSummary
        } else {
            LineKind::DiagnosticStart(Severity::Error)
        }
    } else if text::starts_with(line, "warning:") && speaks_of_generated(line) {
        LineKind::ResultSummary
    } else if starts_warning(line) {
        LineKind::DiagnosticStart(Severity::Warning)
    } else if text::is_blank(line) {
        LineKind::BlankLine
    } else {
        LineKind::Other
    }
}

/// A line that the diagnostic rules take for the start or the body of a
/// diagnostic is no count summary.
pub proof fn lemma_kept_line_is_no_summary(line: Seq<char>)
    requires
        !(diagnostic_kind(line) is ResultSummary),
    ensures
        !is_count_summary(line),
{
    lemma_marks_differ(line);
}

/// No line carries the mark of an error and that of a warning.
pub proof fn lemma_marks_differ(line: Seq<char>)
    ensures
        !(is_error_start(line) && is_warning_start(line)),
{
    reveal_strlit("error[");
    reveal_strlit("error:");
    reveal_strlit("warning:");
    reveal_strlit("warning[");
    if is_error_start(line) && is_warning_start(line) {
        let e = if chars::starts_with(line, "error["@) {
            "error["@
        } else {
            "error:"@
        };
        let w = if chars::starts_with(line, "warning:"@) {
            "warning:"@
        } else {
            "warning["@
        };
        assert(line.subrange(0, e.len() as int)[0] == e[0]);
        assert(line.subrange(0, w.len() as int)[0] == w[0]);
    }
}

/// Whether a summary may show the line: it holds no line feed and is no
/// count summary.
pub open spec fn presentable(line: Seq<char>) -> bool {
    chars::no_line_feed(line) && !is_count_summary(line)
}

/// Whether the line is empty or begins with neither `e` nor `w`, so that
/// it carries no mark of a diagnostic.
pub open spec fn unmarked(line: Seq<char>) -> bool {
    line.len() == 0 || (line[0] != 'e' && line[0] != 'w')
}

/// Whether the line holds no line feed and carries no mark.
pub open spec fn plain(line: Seq<char>) -> bool {
    chars::no_line_feed(line) && unmarked(line)
}

/// An unmarked line starts no diagnostic and is no count summary.
pub proof fn lemma_unmarked_is_no_summary(line: Seq<char>)
    requires
        unmarked(line),
    ensures
        !is_error_start(line),
        !is_warning_start(line),
        !is_count_summary(line),
{
    reveal_strlit("error[");
    reveal_strlit("error:");
    reveal_strlit("warning:");
    reveal_strlit("warning[");
    if chars::starts_with(line, "error["@) {
        assert(line.subrange(0, "error["@.len() as int)[0] == "error["@[0]);
    }
    if chars::starts_with(line, "error:"@) {
        assert(line.subrange(0, "error:"@.len() as int)[0] == "error:"@[0]);
    }
    if chars::starts_with(line, "warning:"@) {
        assert(line.subrange(0, "warning:"@.len() as int)[0] == "warning:"@[0]);
    }
    if chars::starts_with(line, "warning["@) {
        assert(line.subrange(0, "warning["@.len() as int)[0] == "warning["@[0]);
    }
}

/// What begins a text begins every text that goes on from it.
pub proof fn lemma_start_of_beginning(line: Seq<char>, to: int, pat: Seq<char>)
    requires
        0 <= to <= line.len(),
        chars::starts_with(line.subrange(0, to), pat),
    ensures
        chars::starts_with(line, pat),
{
    assert(line.subrange(0, pat.len() as int) =~= line.subrange(0, to).subrange(
        0,
        pat.len() as int,
    ));
}

/// What stands in the beginning of a text stands in the text.
pub proof fn lemma_part_of_beginning(line: Seq<char>, to: int, pat: Seq<char>)
    requires
        0 <= to <= line.len(),
        chars::contains(line.subrange(0, to), pat),
    ensures
        chars::contains(line, pat),
{
    let at = choose|at: int| chars::occurs_at(line.subrange(0, to), pat, at);
    assert(line.subrange(at, at + pat.len()) =~= line.subrange(0, to).subrange(
        at,
        at + pat.len(),
    ));
    assert(chars::occurs_at(line, pat, at));
}

/// A line whose beginning is a count summary is one itself.
pub proof fn lemma_beginning_of_summary(line: Seq<char>, to: int)
    requires
        0 <= to <= line.len(),
        is_count_summary(line.subrange(0, to)),
    ensures
        is_count_summary(line),
{
    let part = line.subrange(0, to);
    if is_error_start(part) && mentions_abort(part) {
        if chars::starts_with(part, "error["@) {
            lemma_start_of_beginning(line, to, "error["@);
        } else {
            lemma_start_of_beginning(line, to, "error:"@);
        }
        if chars::contains(part, "aborting due to"@) {
            lemma_part_of_beginning(line, to, "aborting due to"@);
        } else {
            lemma_part_of_beginning(line, to, "could not compile"@);
        }
    } else {
        lemma_start_of_beginning(line, to, "warning:"@);
        lemma_part_of_beginning(line, to, "generated"@);
        lemma_part_of_beginning(line, to, "warning"@);
    }
}

/// Whether the line carries the mark of a diagnostic of the severity.
pub open spec fn marked(line: Seq<char>, severity: Severity) -> bool {
    match severity {
        Severity::Error => is_error_start(line),
        Severity::Warning => is_warning_start(line),
    }
}

/// How many of `lines` carry the mark of the severity.
pub open spec fn marks(lines: Seq<Seq<char>>, severity: Severity) -> nat
    decreases lines.len(),
{
    if lines.len() == 0 {
        0
    } else {
        marks(lines.drop_last(), severity) + if marked(lines.last(), severity) {
            1nat
        } else {
            0nat
        }
    }
}

/// A line whose beginning carries a mark carries it itself.
pub proof fn lemma_beginning_marked(line: Seq<char>, to: int, severity: Severity)
    requires
        0 <= to <= line.len(),
        marked(line.subrange(0, to), severity),
    ensures
        marked(line, severity),
{
    let part = line.subrange(0, to);
    if chars::starts_with(part, "error["@) {
        lemma_start_of_beginning(line, to, "error["@);
    }
    if chars::starts_with(part, "error:"@) {
        lemma_start_of_beginning(line, to, "error:"@);
    }
    if chars::starts_with(part, "warning:"@) {
        lemma_start_of_beginning(line, to, "warning:"@);
    }
    if chars::starts_with(part, "warning["@) {
        lemma_start_of_beginning(line, to, "warning["@);
    }
}

/// The marks of two runs of lines add up.
pub proof fn lemma_marks_add(a: Seq<Seq<char>>, b: Seq<Seq<char>>, severity: Severity)
    ensures
        marks(a + b, severity) == marks(a, severity) + marks(b, severity),
    decreases b.len(),
{
    if b.len() == 0 {
        assert(a + b =~= a);
    } else {
        lemma_marks_add(a, b.drop_last(), severity);
        assert((a + b).drop_last() =~= a + b.drop_last());
    }
}

/// Lines of which none is marked have no marks.
pub proof fn lemma_no_marks(lines: Seq<Seq<char>>, severity: Severity)
    requires
        forall|i: int| 0 <= i < lines.len() ==> !marked(#[trigger] lines[i], severity),
    ensures
        marks(lines, severity) == 0,
    decreases lines.len(),
{
    if lines.len() > 0 {
        let head = lines.drop_last();
        assert forall|i: int| 0 <= i < head.len() implies !marked(#[trigger] head[i], severity) by {
            assert(head[i] == lines[i]);
        }
        lemma_no_marks(head, severity);
        assert(!marked(lines[lines.len() - 1], severity));
    }
}

/// Lines that are marked only where the lines of `b` at the same place are
/// have no more marks than `b`.
pub proof fn lemma_marks_grow(a: Seq<Seq<char>>, b: Seq<Seq<char>>, severity: Severity)
    requires
        a.len() <= b.len(),
        forall|i: int| 0 <= i < a.len() && marked(#[trigger] a[i], severity) ==> marked(b[i], severity),
    ensures
        marks(a, severity) <= marks(b, severity),
    decreases b.len(),
{
    if a.len() == 0 {
    } else if a.len() < b.len() {
        lemma_marks_grow(a, b.drop_last(), severity);
    } else {
        let ha = a.drop_last();
        let hb = b.drop_last();
        assert forall|i: int| 0 <= i < ha.len() && marked(#[trigger] ha[i], severity) implies marked(
            hb[i],
            severity,
        ) by {
            assert(ha[i] == a[i]);
        }
        lemma_marks_grow(ha, hb, severity);
        if marked(a[a.len() - 1], severity) {
            assert(marked(b[a.len() - 1], severity));
        }
    }
}

} // verus!
