//! The summary of `cargo build` and `cargo check`: how many units were
//! compiled, how many errors and warnings there were, and the diagnostics
//! themselves.

use crate::blocks::{
    blocks_headed, blocks_presentable, count_like, lemma_begin_consistent, lemma_begin_headed,
    lemma_begin_presentable, lemma_empty_consistent, lemma_feed_consistent, lemma_feed_headed,
    lemma_feed_presentable, Accumulation, Accumulator, Severity,
};
use crate::chars;
use crate::classify::{
    begins_with, begins_with_word, classify_diagnostic, diagnostic_kind, is_count_summary,
    lemma_kept_line_is_no_summary, lemma_marks_add, lemma_marks_differ, lemma_no_marks,
    lemma_unmarked_is_no_summary, marked, marks, presentable, LineKind,
};
use crate::render::{
    block_section, hidden, layout_presentable, lemma_block_section_marks,
    lemma_block_section_presentable, lemma_layouts_presentable, lemma_line_shows_no_summary,
    lemma_rendered_marks, lemma_rendered_shows_no_summary, lemma_separator_presentable,
    push_block_section, push_line, render, rendered, separator, separator_line, shown, MAX_BLOCKS,
};
use crate::text;
use vstd::prelude::*;

verus! {

/// What the scan of a build has gathered.
pub struct BuildModel {
    /// How many units were compiled or checked.
    pub compiled: nat,
    /// The diagnostics.
    pub acc: Accumulation,
}

/// Whether the line reports the compilation or the check of one unit.
pub open spec fn is_progress(line: Seq<char>) -> bool {
    begins_with(line, "Compiling"@) || begins_with(line, "Checking"@)
}

/// Whether the line is the "Finished" line of a build.
pub open spec fn is_finished(line: Seq<char>) -> bool {
    begins_with(line, "Finished"@)
}

/// Whether the line is chatter that a build summary never shows.
pub open spec fn is_noise(line: Seq<char>) -> bool {
    begins_with(line, "Downloading"@) || begins_with(line, "Downloaded"@) || is_finished(line)
}

/// What a line of build output is.
pub open spec fn line_kind(line: Seq<char>) -> LineKind {
    if is_progress(line) {
        LineKind::ProgressMarker
    } else if is_noise(line) {
        LineKind::Noise
    } else {
        diagnostic_kind(line)
    }
}

impl BuildModel {
    /// Nothing seen yet.
    pub open spec fn empty() -> BuildModel {
        BuildModel { compiled: 0, acc: Accumulation::empty() }
    }

    /// The model after one more line.
    pub open spec fn step(self, line: Seq<char>) -> BuildModel {
        match line_kind(line) {
            LineKind::ProgressMarker => BuildModel { compiled: self.compiled + 1, ..self },
            LineKind::Noise | LineKind::ResultSummary => self,
            LineKind::DiagnosticStart(severity) => BuildModel {
                acc: self.acc.begin(severity, line),
                ..self
            },
            LineKind::BlankLine | LineKind::Other => BuildModel {
                acc: self.acc.feed(line),
                ..self
            },
        }
    }

    /// The headline of a build with diagnostics.
    pub open spec fn headline(self, verb: Seq<char>) -> Seq<char> {
        "cargo "@ + verb + ": "@ + chars::decimal(self.acc.errors) + " errors, "@ + chars::decimal(
            self.acc.warnings,
        ) + " warnings ("@ + chars::decimal(self.compiled) + " crates)"@
    }

    /// The lines of the summary of a build with diagnostics.
    pub open spec fn layout(self, verb: Seq<char>) -> Seq<Seq<char>> {
        seq![self.headline(verb), separator()] + block_section(self.acc.blocks())
    }

    /// The summary: one line for a build without diagnostics, else the
    /// headline, the separator and the diagnostics.
    pub open spec fn summary(self, verb: Seq<char>) -> Seq<char> {
        if self.acc.errors == 0 && self.acc.warnings == 0 {
            clean_line(verb, self.compiled)
        } else {
            rendered(self.layout(verb))
        }
    }
}

/// The summary of a build without diagnostics that compiled `compiled` units.
pub open spec fn clean_line(verb: Seq<char>, compiled: nat) -> Seq<char> {
    "\u{2713} cargo "@ + verb + " ("@ + chars::decimal(compiled) + " crates compiled)"@
}

/// The model after all of `lines`.
pub open spec fn scan(lines: Seq<Seq<char>>) -> BuildModel
    decreases lines.len(),
{
    if lines.len() == 0 {
        BuildModel::empty()
    } else {
        scan(lines.drop_last()).step(lines.last())
    }
}

/// How many of `lines` report the compilation or the check of a unit.
pub open spec fn progress_count(lines: Seq<Seq<char>>) -> nat
    decreases lines.len(),
{
    if lines.len() == 0 {
        0
    } else {
        progress_count(lines.drop_last()) + if is_progress(lines.last()) {
            1nat
        } else {
            0nat
        }
    }
}

/// The summary of the output `text` of `cargo` followed by `verb`.
pub open spec fn build_summary(verb: Seq<char>, text: Seq<char>) -> Seq<char> {
    scan(chars::lines(text)).summary(verb)
}

/// The scan as it runs.
pub struct BuildScan {
    pub compiled: usize,
    pub acc: Accumulator,
}

impl View for BuildScan {
    type V = BuildModel;

    open spec fn view(&self) -> BuildModel {
        BuildModel { compiled: self.compiled as nat, acc: self.acc@ }
    }
}

/// Classifies a line of build output.
pub fn classify(line: &[char]) -> (k: LineKind)
    ensures
        k == line_kind(line@),
{
    if begins_with_word(line, "Compiling") || begins_with_word(line, "Checking") {
        LineKind::ProgressMarker
    } else if begins_with_word(line, "Downloading") || begins_with_word(line, "Downloaded")
        || begins_with_word(line, "Finished") {
        LineKind::Noise
    } else {
        classify_diagnostic(line)
    }
}

impl BuildScan {
    /// A scan that has seen nothing.
    pub fn new() -> (r: BuildScan)
        ensures
            r@ == BuildModel::empty(),
    {
        BuildScan { compiled: 0, acc: Accumulator::new() }
    }

    /// Takes one more line.
    pub fn step(self, line: &[char]) -> (r: BuildScan)
        requires
            self@.compiled + self@.acc.errors + self@.acc.warnings < usize::MAX,
        ensures
            r@ == self@.step(line@),
    {
        let BuildScan { compiled, acc } = self;
        match classify(line) {
            LineKind::ProgressMarker => BuildScan { compiled: compiled + 1, acc },
            LineKind::Noise => BuildScan { compiled, acc },
            LineKind::ResultSummary => BuildScan { compiled, acc },
            LineKind::DiagnosticStart(severity) => BuildScan {
                compiled,
                acc: acc.begin(severity, line),
            },
            LineKind::BlankLine => BuildScan { compiled, acc: acc.feed(line) },
            LineKind::Other => BuildScan { compiled, acc: acc.feed(line) },
        }
    }

    /// Renders the summary.
    pub fn summary(self, verb: &str) -> (r: String)
        ensures
            r@ == self@.summary(verb@),
    {
        let ghost model = self@;
        let BuildScan { compiled, acc } = self;
        if acc.errors == 0 && acc.warnings == 0 {
            let mut line: Vec<char> = Vec::new();
            text::push_str(&mut line, "\u{2713} cargo ");
            text::push_str(&mut line, verb);
            text::push_str(&mut line, " (");
            text::push_decimal(&mut line, compiled);
            text::push_str(&mut line, " crates compiled)");
            text::string_of(line.as_slice())
        } else {
            let mut head: Vec<char> = Vec::new();
            text::push_str(&mut head, "cargo ");
            text::push_str(&mut head, verb);
            text::push_str(&mut head, ": ");
            text::push_decimal(&mut head, acc.errors);
            text::push_str(&mut head, " errors, ");
            text::push_decimal(&mut head, acc.warnings);
            text::push_str(&mut head, " warnings (");
            text::push_decimal(&mut head, compiled);
            text::push_str(&mut head, " crates)");
            let mut layout: Vec<Vec<char>> = Vec::new();
            push_line(&mut layout, head);
            push_line(&mut layout, separator_line());
            let blocks = acc.finish();
            push_block_section(&mut layout, &blocks);
            proof {
                assert(chars::views(layout@) =~= model.layout(verb@));
            }
            render(&layout)
        }
    }
}

/// Summarises the output of `cargo` followed by `verb`, where `verb` is
/// `build` or `check`.
pub fn filter_cargo_compile(verb: &str, output: &str) -> (r: String)
    ensures
        r@ == build_summary(verb@, output@),
{
    let text = text::chars_of(output);
    let lines = text::split_lines(text.as_slice());
    let mut state = BuildScan::new();
    let mut i: usize = 0;
    assert(chars::views(lines@).take(0) =~= Seq::empty());
    while i < lines.len()
        invariant
            i <= lines.len(),
            state@ == scan(chars::views(lines@).take(i as int)),
        decreases lines.len() - i,
    {
        proof {
            let seen = chars::views(lines@).take(i as int);
            lemma_scan_counts(seen);
            let next = chars::views(lines@).take(i + 1);
            assert(next.drop_last() =~= seen);
            assert(next.last() == lines[i as int]@);
        }
        state = state.step(lines[i].as_slice());
        i += 1;
    }
    assert(chars::views(lines@).take(lines.len() as int) =~= chars::views(lines@));
    state.summary(verb)
}

/// Summarises the output of `cargo build`.
pub fn filter_cargo_build(output: &str) -> (r: String)
    ensures
        r@ == build_summary("build"@, output@),
{
    filter_cargo_compile("build", output)
}

/// Summarises the output of `cargo check`.
pub fn filter_cargo_check(output: &str) -> (r: String)
    ensures
        r@ == build_summary("check"@, output@),
{
    filter_cargo_compile("check", output)
}

/// What the scan has counted never exceeds the number of lines it has seen:
/// each line counts at most once. The counts of diagnostics are those of the
/// blocks collected, severity by severity, and no block is empty.
pub proof fn lemma_scan_counts(lines: Seq<Seq<char>>)
    ensures
        scan(lines).compiled + scan(lines).acc.errors + scan(lines).acc.warnings <= lines.len(),
        scan(lines).acc.consistent(),
        scan(lines).compiled == progress_count(lines),
    decreases lines.len(),
{
    if lines.len() == 0 {
        lemma_empty_consistent();
    } else {
        lemma_scan_counts(lines.drop_last());
        let before = scan(lines.drop_last());
        let line = lines.last();
        match line_kind(line) {
            LineKind::DiagnosticStart(severity) => {
                lemma_begin_consistent(before.acc, severity, line);
            },
            LineKind::BlankLine | LineKind::Other => {
                lemma_feed_consistent(before.acc, line);
            },
            _ => {},
        }
    }
}

/// The scan takes no count summary into a block, and no line feed when
/// the lines hold none.
pub proof fn lemma_scan_presentable(lines: Seq<Seq<char>>)
    requires
        forall|i: int| 0 <= i < lines.len() ==> chars::no_line_feed(#[trigger] lines[i]),
    ensures
        blocks_presentable(scan(lines).acc.blocks()),
    decreases lines.len(),
{
    if lines.len() > 0 {
        let head = lines.drop_last();
        assert forall|i: int| 0 <= i < head.len() implies chars::no_line_feed(#[trigger] head[i]) by {
            assert(head[i] == lines[i]);
        }
        lemma_scan_presentable(head);
        let before = scan(head);
        let line = lines.last();
        assert(chars::no_line_feed(lines[lines.len() - 1]));
        match line_kind(line) {
            LineKind::DiagnosticStart(severity) => {
                lemma_kept_line_is_no_summary(line);
                lemma_begin_presentable(before.acc, severity, line);
            },
            LineKind::BlankLine | LineKind::Other => {
                lemma_kept_line_is_no_summary(line);
                lemma_feed_presentable(before.acc, line);
            },
            _ => {},
        }
    }
}

/// The line of a build without diagnostics is presentable, when the verb
/// holds no line feed.
pub proof fn lemma_clean_line_presentable(verb: Seq<char>, compiled: nat)
    requires
        chars::no_line_feed(verb),
    ensures
        presentable(clean_line(verb, compiled)),
{
    reveal_strlit("\u{2713} cargo ");
    reveal_strlit(" (");
    reveal_strlit(" crates compiled)");
    chars::lemma_decimal_is_digits(compiled);
    let a = "\u{2713} cargo "@ + verb;
    chars::lemma_joint_holds_no_line_feed("\u{2713} cargo "@, verb);
    chars::lemma_joint_holds_no_line_feed(a, " ("@);
    chars::lemma_joint_holds_no_line_feed(a + " ("@, chars::decimal(compiled));
    chars::lemma_joint_holds_no_line_feed(
        a + " ("@ + chars::decimal(compiled),
        " crates compiled)"@,
    );
    assert(clean_line(verb, compiled)[0] == '\u{2713}');
    lemma_unmarked_is_no_summary(clean_line(verb, compiled));
}

/// The headline of a build with diagnostics is presentable and begins with
/// a letter, when the verb holds no line feed.
pub proof fn lemma_headline_presentable(model: BuildModel, verb: Seq<char>)
    requires
        chars::no_line_feed(verb),
    ensures
        presentable(model.headline(verb)),
        model.headline(verb).len() > 0,
        model.headline(verb)[0] == 'c',
{
    reveal_strlit("cargo ");
    reveal_strlit(": ");
    reveal_strlit(" errors, ");
    reveal_strlit(" warnings (");
    reveal_strlit(" crates)");
    chars::lemma_decimal_is_digits(model.acc.errors);
    chars::lemma_decimal_is_digits(model.acc.warnings);
    chars::lemma_decimal_is_digits(model.compiled);
    let a = "cargo "@ + verb;
    chars::lemma_joint_holds_no_line_feed("cargo "@, verb);
    let b = a + ": "@;
    chars::lemma_joint_holds_no_line_feed(a, ": "@);
    let c = b + chars::decimal(model.acc.errors);
    chars::lemma_joint_holds_no_line_feed(b, chars::decimal(model.acc.errors));
    let d = c + " errors, "@;
    chars::lemma_joint_holds_no_line_feed(c, " errors, "@);
    let e = d + chars::decimal(model.acc.warnings);
    chars::lemma_joint_holds_no_line_feed(d, chars::decimal(model.acc.warnings));
    let f = e + " warnings ("@;
    chars::lemma_joint_holds_no_line_feed(e, " warnings ("@);
    let g = f + chars::decimal(model.compiled);
    chars::lemma_joint_holds_no_line_feed(f, chars::decimal(model.compiled));
    chars::lemma_joint_holds_no_line_feed(g, " crates)"@);
    assert(model.headline(verb) == g + " crates)"@);
    assert(model.headline(verb)[0] == 'c');
    lemma_unmarked_is_no_summary(model.headline(verb));
}

/// No count summary is a line of a build summary: neither "aborting due
/// to", nor "could not compile", nor "generated N warnings" is shown as a
/// line of its own, whatever the output was. The verb must hold no line
/// feed, as `build` and `check` do.
pub proof fn lemma_no_count_summary_shown(verb: Seq<char>, text: Seq<char>)
    requires
        chars::no_line_feed(verb),
    ensures
        forall|i: int|
            0 <= i < chars::lines(build_summary(verb, text)).len() ==> !is_count_summary(
                #[trigger] chars::lines(build_summary(verb, text))[i],
            ),
{
    let lines = chars::lines(text);
    chars::lemma_lines_hold_no_line_feed(text, 0);
    lemma_scan_presentable(lines);
    let model = scan(lines);
    if model.acc.errors == 0 && model.acc.warnings == 0 {
        lemma_clean_line_presentable(verb, model.compiled);
        lemma_line_shows_no_summary(clean_line(verb, model.compiled));
    } else {
        lemma_headline_presentable(model, verb);
        lemma_separator_presentable();
        lemma_block_section_presentable(model.acc.blocks());
        let top = seq![model.headline(verb), separator()];
        assert(layout_presentable(top)) by {
            assert forall|k: int| 0 <= k < top.len() implies presentable(#[trigger] top[k]) by {
                if k == 0 {
                } else {
                    assert(top[k] == separator());
                }
            }
        }
        lemma_layouts_presentable(top, block_section(model.acc.blocks()));
        let layout = model.layout(verb);
        assert(layout[0] == model.headline(verb));
        assert(!chars::is_whitespace('c'));
        lemma_rendered_shows_no_summary(layout);
    }
}

/// The verbs of the two subcommands hold no line feed.
pub proof fn lemma_verbs_hold_no_line_feed()
    ensures
        chars::no_line_feed("build"@),
        chars::no_line_feed("check"@),
{
    reveal_strlit("build");
    reveal_strlit("check");
}

/// Output of progress lines and "Finished" lines only gives the one-line
/// summary, with the number of progress lines as the number of units.
pub proof fn lemma_clean_build(verb: Seq<char>, text: Seq<char>)
    requires
        forall|i: int|
            0 <= i < chars::lines(text).len() ==> is_progress(#[trigger] chars::lines(text)[i])
                || is_finished(chars::lines(text)[i]),
    ensures
        build_summary(verb, text) == clean_line(verb, progress_count(chars::lines(text))),
{
    let lines = chars::lines(text);
    assert forall|i: int| 0 <= i < lines.len() implies !(line_kind(#[trigger] lines[i])
        is DiagnosticStart) by {
        assert(is_progress(lines[i]) || is_finished(lines[i]));
    }
    lemma_quiet_scan(lines);
    lemma_scan_counts(lines);
}

/// Lines that start no diagnostic leave the accumulator as it began.
pub proof fn lemma_quiet_scan(lines: Seq<Seq<char>>)
    requires
        forall|i: int| 0 <= i < lines.len() ==> !(line_kind(#[trigger] lines[i]) is DiagnosticStart),
    ensures
        scan(lines).acc == Accumulation::empty(),
    decreases lines.len(),
{
    if lines.len() > 0 {
        let head = lines.drop_last();
        assert forall|i: int| 0 <= i < head.len() implies !(line_kind(#[trigger] head[i])
            is DiagnosticStart) by {
            assert(head[i] == lines[i]);
        }
        lemma_quiet_scan(head);
        assert(!(line_kind(lines[lines.len() - 1]) is DiagnosticStart));
    }
}

/// Every block is accounted for: the blocks shown in full and those that the
/// note counts as left out are all the blocks, which are as many as the
/// errors and warnings in the headline; and at most `MAX_BLOCKS` are shown.
pub proof fn lemma_every_block_accounted(text: Seq<char>)
    ensures
        ({
            let model = scan(chars::lines(text));
            let total = model.acc.blocks().len();
            &&& shown(total, MAX_BLOCKS as nat) + hidden(total, MAX_BLOCKS as nat) == total
            &&& total == model.acc.errors + model.acc.warnings
            &&& shown(total, MAX_BLOCKS as nat) <= MAX_BLOCKS
            &&& total > MAX_BLOCKS ==> shown(total, MAX_BLOCKS as nat) == MAX_BLOCKS
        }),
{
    lemma_scan_counts(chars::lines(text));
}

/// The scan makes headed blocks: only the first line of a block carries a
/// mark, and it carries the mark of the block's severity.
pub proof fn lemma_scan_headed(lines: Seq<Seq<char>>, mark: Severity)
    ensures
        blocks_headed(scan(lines).acc.blocks(), mark),
    decreases lines.len(),
{
    if lines.len() > 0 {
        lemma_scan_headed(lines.drop_last(), mark);
        let before = scan(lines.drop_last());
        let line = lines.last();
        lemma_marks_differ(line);
        match line_kind(line) {
            LineKind::DiagnosticStart(severity) => {
                lemma_begin_headed(before.acc, severity, line, mark);
            },
            LineKind::BlankLine | LineKind::Other => {
                lemma_feed_headed(before.acc, line, mark);
            },
            _ => {},
        }
    }
}

/// The scan counts no more diagnostics of a severity than there are lines
/// that carry its mark.
pub proof fn lemma_scan_counts_marks(lines: Seq<Seq<char>>)
    ensures
        scan(lines).acc.errors <= marks(lines, Severity::Error),
        scan(lines).acc.warnings <= marks(lines, Severity::Warning),
    decreases lines.len(),
{
    if lines.len() > 0 {
        lemma_scan_counts_marks(lines.drop_last());
    }
}

/// A summary read as output again shows no diagnostic that the output did
/// not hold: the summary of a build summary counts no more errors and no
/// more warnings than the summary itself. The verb must hold no line feed,
/// as `build` and `check` do.
pub proof fn lemma_summary_invents_nothing(verb: Seq<char>, text: Seq<char>)
    requires
        chars::no_line_feed(verb),
    ensures
        scan(chars::lines(build_summary(verb, text))).acc.errors <= scan(
            chars::lines(text),
        ).acc.errors,
        scan(chars::lines(build_summary(verb, text))).acc.warnings <= scan(
            chars::lines(text),
        ).acc.warnings,
{
    let lines = chars::lines(text);
    let model = scan(lines);
    let shown_lines = chars::lines(build_summary(verb, text));
    lemma_scan_counts_marks(shown_lines);
    lemma_summary_marks(verb, text, Severity::Error);
    lemma_summary_marks(verb, text, Severity::Warning);
    lemma_scan_counts(lines);
}

/// The lines of a build summary hold no more marks of a severity than the
/// scan has collected blocks of it.
pub proof fn lemma_summary_marks(verb: Seq<char>, text: Seq<char>, severity: Severity)
    requires
        chars::no_line_feed(verb),
    ensures
        marks(chars::lines(build_summary(verb, text)), severity) <= count_like(
            scan(chars::lines(text)).acc.blocks(),
            severity,
        ),
{
    let lines = chars::lines(text);
    chars::lemma_lines_hold_no_line_feed(text, 0);
    lemma_scan_presentable(lines);
    lemma_scan_headed(lines, severity);
    let model = scan(lines);
    if model.acc.errors == 0 && model.acc.warnings == 0 {
        lemma_clean_line_presentable(verb, model.compiled);
        lemma_clean_line_marks(verb, model.compiled, severity);
    } else {
        lemma_headline_presentable(model, verb);
        lemma_separator_presentable();
        lemma_block_section_presentable(model.acc.blocks());
        let top = seq![model.headline(verb), separator()];
        let section = block_section(model.acc.blocks());
        let layout = model.layout(verb);
        assert forall|k: int| 0 <= k < layout.len() implies chars::no_line_feed(
            #[trigger] layout[k],
        ) by {
            if k >= 2 {
                assert(layout[k] == section[k - 2]);
                assert(presentable(section[k - 2]));
            } else if k == 1 {
                assert(layout[k] == separator());
            }
        }
        assert(layout[0] == model.headline(verb));
        assert(!chars::is_whitespace('c'));
        lemma_rendered_marks(layout, severity);
        assert forall|k: int| 0 <= k < top.len() implies !marked(#[trigger] top[k], severity) by {
            if k == 0 {
                lemma_unmarked_is_no_summary(model.headline(verb));
            } else {
                assert(top[k] == separator());
                lemma_unmarked_is_no_summary(separator());
            }
        }
        lemma_no_marks(top, severity);
        lemma_marks_add(top, section, severity);
        lemma_block_section_marks(model.acc.blocks(), severity);
    }
}

/// The line of a build without diagnostics holds no line that carries a
/// mark or reports progress.
pub proof fn lemma_clean_line_marks(verb: Seq<char>, compiled: nat, severity: Severity)
    requires
        chars::no_line_feed(verb),
    ensures
        marks(chars::lines(clean_line(verb, compiled)), severity) == 0,
        progress_count(chars::lines(clean_line(verb, compiled))) == 0,
{
    reveal_strlit("\u{2713} cargo ");
    reveal_strlit("Compiling");
    reveal_strlit("Checking");
    let line = clean_line(verb, compiled);
    lemma_clean_line_presentable(verb, compiled);
    let layout = seq![line];
    assert(layout[0] == line);
    assert(chars::join_lines(layout) == line);
    chars::lemma_join_is_beginning(layout);
    let len = chars::unlines(layout).len() - 1;
    assert(layout.take(0) =~= Seq::empty());
    assert(chars::line_start(layout, 0) == 0);
    chars::lemma_lines_of_beginning(layout, len, 0);
    let shown_lines = chars::lines(line);
    assert(line[0] == '\u{2713}');
    assert forall|i: int| 0 <= i < shown_lines.len() implies !marked(
        #[trigger] shown_lines[i],
        severity,
    ) && !is_progress(shown_lines[i]) by {
        assert(chars::begins_line(shown_lines[i], layout, 0 + i));
        let to = choose|to: int|
            0 <= to <= layout[i].len() && shown_lines[i] == #[trigger] chars::cut(layout, i, to);
        let part = shown_lines[i];
        lemma_unmarked_is_no_summary(part);
        if part.len() > 0 {
            assert(part[0] == '\u{2713}');
            assert(chars::skip_whitespace(part, 0) == 0);
            assert(chars::trim_start(part) =~= part);
            if chars::starts_with(part, "Compiling"@) {
                assert(part.subrange(0, "Compiling"@.len() as int)[0] == "Compiling"@[0]);
            }
            if chars::starts_with(part, "Checking"@) {
                assert(part.subrange(0, "Checking"@.len() as int)[0] == "Checking"@[0]);
            }
        } else {
            assert(chars::trim_start(part).len() == 0);
        }
    }
    lemma_no_marks(shown_lines, severity);
    lemma_no_progress(shown_lines);
}

/// Lines of which none reports progress count no progress.
pub proof fn lemma_no_progress(lines: Seq<Seq<char>>)
    requires
        forall|i: int| 0 <= i < lines.len() ==> !is_progress(#[trigger] lines[i]),
    ensures
        progress_count(lines) == 0,
    decreases lines.len(),
{
    if lines.len() > 0 {
        let head = lines.drop_last();
        assert forall|i: int| 0 <= i < head.len() implies !is_progress(#[trigger] head[i]) by {
            assert(head[i] == lines[i]);
        }
        lemma_no_progress(head);
        assert(!is_progress(lines[lines.len() - 1]));
    }
}

/// The summary of the summary of a build without diagnostics is the
/// summary of a build without diagnostics that compiled nothing.
pub proof fn lemma_clean_summary_stays_clean(verb: Seq<char>, compiled: nat)
    requires
        chars::no_line_feed(verb),
    ensures
        build_summary(verb, clean_line(verb, compiled)) == clean_line(verb, 0),
{
    let lines = chars::lines(clean_line(verb, compiled));
    lemma_clean_line_marks(verb, compiled, Severity::Error);
    lemma_clean_line_marks(verb, compiled, Severity::Warning);
    lemma_scan_counts_marks(lines);
    lemma_scan_counts(lines);
}

} // verus!
