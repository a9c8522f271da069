//! The summary of `cargo test`: the failures and the result lines, without
//! the tests that passed.

use crate::chars;
use crate::classify::{
    begins_with, begins_with_word, is_count_summary, lemma_unmarked_is_no_summary, plain,
};
use crate::noise::{
    is_noise, layout_quiet, lemma_joined_is_quiet, lemma_labelled_is_quiet, lemma_layouts_quiet,
    lemma_line_is_quiet, lemma_rendered_is_quiet, lemma_truncated_is_quiet,
    lemma_unobtrusive_is_quiet, quiet, unobtrusive,
};
use crate::passage::{
    discreet, from_index, layout_discreet, lemma_joined_is_discreet, lemma_labelled_is_discreet,
    lemma_layouts_discreet, lemma_plain_is_discreet, lemma_presentable_is_discreet,
    lemma_rendered_from_first_mark, lemma_rendered_is_discreet, lemma_truncated_is_discreet,
};
use crate::render::{
    begins_visibly, hidden, layout_plain, lemma_overflow_note_plain, lemma_rendered_is_beginning,
    lemma_rendered_is_unmarked, lemma_separator_plain, overflow_note, push_line,
    push_overflow_note, render, rendered, separator, separator_line, shown,
};
use crate::text;
use vstd::prelude::*;
use vstd::slice::slice_subrange;

verus! {

/// How many failures a summary shows.
pub const MAX_FAILURES: usize = 10;

/// How many characters of one failure a summary shows.
pub const FAILURE_WIDTH: usize = 200;

/// How many lines the summary of unrecognised output shows.
pub const FALLBACK_LINES: usize = 5;

/// What a line of test output is.
#[derive(Clone, Copy, Debug)]
pub enum TestLine {
    /// Progress, "running N tests", a test that passed.
    Noise,
    /// The line `failures:` that opens the region of failure details.
    FailuresHeader,
    /// A `test result:` line.
    ResultSummary,
    /// A line of failure detail: indented by four spaces or begun with
    /// four dashes.
    Detail,
    /// A line of whitespace only.
    BlankLine,
    /// Anything else.
    Other,
}

/// Whether the line reports progress that a test summary never shows.
pub open spec fn is_progress(line: Seq<char>) -> bool {
    ||| begins_with(line, "Compiling"@)
    ||| begins_with(line, "Downloading"@)
    ||| begins_with(line, "Downloaded"@)
    ||| begins_with(line, "Finished"@)
}

/// Whether the line announces a run of tests or reports a test that passed.
pub open spec fn is_passing(line: Seq<char>) -> bool {
    chars::starts_with(line, "running "@) || (chars::starts_with(line, "test "@)
        && chars::ends_with(line, "... ok"@))
}

/// What a line of test output is.
pub open spec fn line_kind(line: Seq<char>) -> TestLine {
    if is_progress(line) || is_passing(line) {
        TestLine::Noise
    } else if line == "failures:"@ {
        TestLine::FailuresHeader
    } else if chars::starts_with(line, "test result:"@) {
        TestLine::ResultSummary
    } else if chars::starts_with(line, "    "@) || chars::starts_with(line, "---- "@) {
        TestLine::Detail
    } else if chars::is_blank(line) {
        TestLine::BlankLine
    } else {
        TestLine::Other
    }
}

/// What the scan of a test run has gathered.
pub struct TestModel {
    /// The failures that are complete, each as its lines joined.
    pub failures: Seq<Seq<char>>,
    /// The lines of the failure that is being read.
    pub current: Seq<Seq<char>>,
    /// The `test result:` lines.
    pub summaries: Seq<Seq<char>>,
    /// Whether the scan is inside the region of failure details.
    pub in_failures: bool,
}

impl TestModel {
    /// Nothing seen yet.
    pub open spec fn empty() -> TestModel {
        TestModel {
            failures: Seq::empty(),
            current: Seq::empty(),
            summaries: Seq::empty(),
            in_failures: false,
        }
    }

    /// The model after one more line. Inside the region of failure details
    /// every line that is not blank belongs to the failure being read, and
    /// a blank line completes it. A result line is kept wherever it stands
    /// and ends the region.
    pub open spec fn step(self, line: Seq<char>) -> TestModel {
        match line_kind(line) {
            TestLine::Noise => self,
            TestLine::FailuresHeader => TestModel { in_failures: true, ..self },
            TestLine::ResultSummary => TestModel {
                in_failures: false,
                summaries: self.summaries.push(line),
                ..self
            },
            TestLine::Detail | TestLine::Other => if self.in_failures {
                TestModel { current: self.current.push(line), ..self }
            } else {
                self
            },
            TestLine::BlankLine => if self.in_failures && self.current.len() > 0 {
                TestModel {
                    failures: self.failures.push(chars::join_lines(self.current)),
                    current: Seq::empty(),
                    ..self
                }
            } else {
                self
            },
        }
    }

    /// All failures: the complete ones and the one being read, if it has
    /// lines.
    pub open spec fn all_failures(self) -> Seq<Seq<char>> {
        if self.current.len() > 0 {
            self.failures.push(chars::join_lines(self.current))
        } else {
            self.failures
        }
    }

    /// The lines of the summary of a run without failures.
    pub open spec fn passed_layout(self) -> Seq<Seq<char>> {
        Seq::new(self.summaries.len(), |i: int| "\u{2713} "@ + self.summaries[i])
    }

    /// The lines of the summary of a run with failures.
    pub open spec fn failed_layout(self) -> Seq<Seq<char>> {
        let all = self.all_failures();
        seq!["FAILURES ("@ + chars::decimal(all.len()) + "):"@, separator()] + failure_entries(
            all,
            shown(all.len(), MAX_FAILURES as nat),
        ) + overflow_note(hidden(all.len(), MAX_FAILURES as nat), "failures"@) + seq![
            Seq::<char>::empty(),
        ] + self.summaries
    }
}

/// The entry of failure `i`: its number, counted from one, and its text cut
/// to `FAILURE_WIDTH` characters.
pub open spec fn failure_entry(failures: Seq<Seq<char>>, i: int) -> Seq<char> {
    chars::decimal((i + 1) as nat) + ". "@ + chars::truncate(failures[i], FAILURE_WIDTH as int)
}

/// The entries of the first `k` failures.
pub open spec fn failure_entries(failures: Seq<Seq<char>>, k: nat) -> Seq<Seq<char>> {
    Seq::new(k, |i: int| failure_entry(failures, i))
}

/// The model after all of `lines`.
pub open spec fn scan(lines: Seq<Seq<char>>) -> TestModel
    decreases lines.len(),
{
    if lines.len() == 0 {
        TestModel::empty()
    } else {
        scan(lines.drop_last()).step(lines.last())
    }
}

/// Whether a line counts when nothing else was recognised: it is not blank
/// and reports no progress.
pub open spec fn is_meaningful(line: Seq<char>) -> bool {
    !chars::is_blank(line) && !is_progress(line)
}

/// The lines of `lines` that are meaningful, in order.
pub open spec fn meaningful(lines: Seq<Seq<char>>) -> Seq<Seq<char>>
    decreases lines.len(),
{
    if lines.len() == 0 {
        Seq::empty()
    } else if is_meaningful(lines.last()) {
        meaningful(lines.drop_last()).push(lines.last())
    } else {
        meaningful(lines.drop_last())
    }
}

/// The last `n` of `lines`, or all of them when they are fewer.
pub open spec fn last_lines(lines: Seq<Seq<char>>, n: nat) -> Seq<Seq<char>> {
    if lines.len() > n {
        lines.subrange(lines.len() - n, lines.len() as int)
    } else {
        lines
    }
}

/// The summary of the output `text` of `cargo test`. With failures: their
/// count, the first `MAX_FAILURES` of them and the result lines. Without
/// failures: the result lines, each behind a check mark. With neither: the
/// last `FALLBACK_LINES` meaningful lines of the output.
pub open spec fn test_summary(text: Seq<char>) -> Seq<char> {
    let lines = chars::lines(text);
    let model = scan(lines);
    if model.all_failures().len() > 0 {
        rendered(model.failed_layout())
    } else if model.summaries.len() > 0 {
        rendered(model.passed_layout())
    } else {
        rendered(last_lines(meaningful(lines), FALLBACK_LINES as nat))
    }
}

/// The scan as it runs.
pub struct TestScan {
    pub failures: Vec<Vec<char>>,
    pub current: Vec<Vec<char>>,
    pub summaries: Vec<Vec<char>>,
    pub in_failures: bool,
}

impl View for TestScan {
    type V = TestModel;

    open spec fn view(&self) -> TestModel {
        TestModel {
            failures: chars::views(self.failures@),
            current: chars::views(self.current@),
            summaries: chars::views(self.summaries@),
            in_failures: self.in_failures,
        }
    }
}

/// Whether the line reports progress that a test summary never shows.
pub fn reports_progress(line: &[char]) -> (b: bool)
    ensures
        b == is_progress(line@),
{
    begins_with_word(line, "Compiling") || begins_with_word(line, "Downloading")
        || begins_with_word(line, "Downloaded") || begins_with_word(line, "Finished")
}

/// Classifies a line of test output.
pub fn classify(line: &[char]) -> (k: TestLine)
    ensures
        k == line_kind(line@),
{
    if reports_progress(line) {
        TestLine::Noise
    } else if text::starts_with(line, "running ") || (text::starts_with(line, "test ")
        && text::ends_with(line, "... ok")) {
        TestLine::Noise
    } else if text::equals(line, "failures:") {
        TestLine::FailuresHeader
    } else if text::starts_with(line, "test result:") {
        TestLine::ResultSummary
    } else if text::starts_with(line, "    ") || text::starts_with(line, "---- ") {
        TestLine::Detail
    } else if text::is_blank(line) {
        TestLine::BlankLine
    } else {
        TestLine::Other
    }
}

/// Whether a line counts when nothing else was recognised.
pub fn counts(line: &[char]) -> (b: bool)
    ensures
        b == is_meaningful(line@),
{
    !text::is_blank(line) && !reports_progress(line)
}

impl TestScan {
    /// A scan that has seen nothing.
    pub fn new() -> (r: TestScan)
        ensures
            r@ == TestModel::empty(),
    {
        let r = TestScan {
            failures: Vec::new(),
            current: Vec::new(),
            summaries: Vec::new(),
            in_failures: false,
        };
        assert(r@.failures =~= Seq::empty());
        assert(r@.current =~= Seq::empty());
        assert(r@.summaries =~= Seq::empty());
        r
    }

    /// Takes one more line.
    pub fn step(self, line: &[char]) -> (r: TestScan)
        ensures
            r@ == self@.step(line@),
    {
        let TestScan { failures, current, summaries, in_failures } = self;
        match classify(line) {
            TestLine::Noise => TestScan { failures, current, summaries, in_failures },
            TestLine::FailuresHeader => TestScan { failures, current, summaries, in_failures: true },
            TestLine::ResultSummary => {
                let mut summaries = summaries;
                push_line(&mut summaries, text::to_vec(line));
                TestScan { failures, current, summaries, in_failures: false }
            },
            TestLine::Detail => {
                let mut current = current;
                if in_failures {
                    push_line(&mut current, text::to_vec(line));
                }
                TestScan { failures, current, summaries, in_failures }
            },
            TestLine::Other => {
                let mut current = current;
                if in_failures {
                    push_line(&mut current, text::to_vec(line));
                }
                TestScan { failures, current, summaries, in_failures }
            },
            TestLine::BlankLine => {
                if in_failures && current.len() > 0 {
                    let mut failures = failures;
                    push_line(&mut failures, text::join_lines(&current));
                    let r = TestScan { failures, current: Vec::new(), summaries, in_failures };
                    assert(r@.current =~= Seq::empty());
                    r
                } else {
                    TestScan { failures, current, summaries, in_failures }
                }
            },
        }
    }

    /// Ends the scan: all failures and the result lines.
    pub fn finish(self) -> (r: (Vec<Vec<char>>, Vec<Vec<char>>))
        ensures
            chars::views(r.0@) == self@.all_failures(),
            chars::views(r.1@) == self@.summaries,
    {
        let TestScan { failures, current, summaries, in_failures } = self;
        let mut failures = failures;
        if current.len() > 0 {
            push_line(&mut failures, text::join_lines(&current));
        }
        (failures, summaries)
    }
}

/// Lays out the summary of a run without failures.
pub fn passed_lines(summaries: &Vec<Vec<char>>) -> (layout: Vec<Vec<char>>)
    ensures
        chars::views(layout@) == Seq::new(
            summaries@.len(),
            |i: int| "\u{2713} "@ + chars::views(summaries@)[i],
        ),
{
    let ghost goal = Seq::new(
        summaries@.len(),
        |i: int| "\u{2713} "@ + chars::views(summaries@)[i],
    );
    let mut layout: Vec<Vec<char>> = Vec::new();
    let mut i: usize = 0;
    assert(chars::views(layout@) =~= goal.take(0));
    while i < summaries.len()
        invariant
            i <= summaries.len(),
            goal == Seq::new(
                summaries@.len(),
                |i: int| "\u{2713} "@ + chars::views(summaries@)[i],
            ),
            chars::views(layout@) == goal.take(i as int),
        decreases summaries.len() - i,
    {
        let mut entry: Vec<char> = Vec::new();
        text::push_str(&mut entry, "\u{2713} ");
        text::push_all(&mut entry, summaries[i].as_slice());
        proof {
            assert(entry@ =~= goal[i as int]);
            assert(goal.take(i as int).push(entry@) =~= goal.take(i + 1));
        }
        push_line(&mut layout, entry);
        i += 1;
    }
    assert(goal.take(summaries.len() as int) =~= goal);
    layout
}

/// Lays out the summary of a run with failures.
pub fn failed_lines(failures: &Vec<Vec<char>>, summaries: &Vec<Vec<char>>) -> (layout: Vec<
    Vec<char>,
>)
    ensures
        chars::views(layout@) == (TestModel {
            failures: chars::views(failures@),
            current: Seq::empty(),
            summaries: chars::views(summaries@),
            in_failures: false,
        }).failed_layout(),
{
    let ghost all = chars::views(failures@);
    let ghost model = TestModel {
        failures: all,
        current: Seq::empty(),
        summaries: chars::views(summaries@),
        in_failures: false,
    };
    let total = failures.len();
    let limit = if total > MAX_FAILURES {
        MAX_FAILURES
    } else {
        total
    };
    let mut head: Vec<char> = Vec::new();
    text::push_str(&mut head, "FAILURES (");
    text::push_decimal(&mut head, total);
    text::push_str(&mut head, "):");
    let ghost top = seq!["FAILURES ("@ + chars::decimal(total as nat) + "):"@, separator()];
    let mut layout: Vec<Vec<char>> = Vec::new();
    push_line(&mut layout, head);
    push_line(&mut layout, separator_line());
    assert(chars::views(layout@) =~= top + failure_entries(all, 0));
    let mut i: usize = 0;
    while i < limit
        invariant
            i <= limit <= total,
            total == failures.len(),
            all == chars::views(failures@),
            chars::views(layout@) == top + failure_entries(all, i as nat),
        decreases limit - i,
    {
        let mut entry: Vec<char> = Vec::new();
        text::push_decimal(&mut entry, i + 1);
        text::push_str(&mut entry, ". ");
        let cut = text::truncate(failures[i].as_slice(), FAILURE_WIDTH);
        text::push_all(&mut entry, cut.as_slice());
        proof {
            assert(entry@ =~= failure_entry(all, i as int));
            assert((top + failure_entries(all, i as nat)).push(entry@) =~= top + failure_entries(
                all,
                (i + 1) as nat,
            ));
        }
        push_line(&mut layout, entry);
        i += 1;
    }
    push_overflow_note(&mut layout, total - limit, "failures");
    push_line(&mut layout, Vec::new());
    crate::render::push_lines(&mut layout, summaries);
    proof {
        assert(chars::views(layout@) =~= model.failed_layout());
    }
    layout
}

/// The last `FALLBACK_LINES` meaningful lines of `lines`.
pub fn fallback_lines(lines: &Vec<Vec<char>>) -> (layout: Vec<Vec<char>>)
    ensures
        chars::views(layout@) == last_lines(
            meaningful(chars::views(lines@)),
            FALLBACK_LINES as nat,
        ),
{
    let mut kept: Vec<Vec<char>> = Vec::new();
    let mut i: usize = 0;
    assert(chars::views(lines@).take(0) =~= Seq::empty());
    assert(chars::views(kept@) =~= Seq::empty());
    while i < lines.len()
        invariant
            i <= lines.len(),
            chars::views(kept@) == meaningful(chars::views(lines@).take(i as int)),
        decreases lines.len() - i,
    {
        proof {
            let next = chars::views(lines@).take(i + 1);
            assert(next.drop_last() =~= chars::views(lines@).take(i as int));
            assert(next.last() == lines[i as int]@);
        }
        if counts(lines[i].as_slice()) {
            push_line(&mut kept, text::to_vec(lines[i].as_slice()));
        }
        i += 1;
    }
    assert(chars::views(lines@).take(lines.len() as int) =~= chars::views(lines@));
    let from: usize = if kept.len() > FALLBACK_LINES {
        kept.len() - FALLBACK_LINES
    } else {
        0
    };
    let mut layout: Vec<Vec<char>> = Vec::new();
    let mut k: usize = from;
    assert(chars::views(layout@) =~= chars::views(kept@).subrange(from as int, from as int));
    while k < kept.len()
        invariant
            from <= k <= kept.len(),
            chars::views(layout@) == chars::views(kept@).subrange(from as int, k as int),
        decreases kept.len() - k,
    {
        proof {
            assert(chars::views(kept@).subrange(from as int, k as int).push(kept[k as int]@)
                =~= chars::views(kept@).subrange(from as int, k + 1));
        }
        push_line(&mut layout, text::to_vec(kept[k].as_slice()));
        k += 1;
    }
    proof {
        if from == 0 {
            assert(chars::views(kept@).subrange(0, kept.len() as int) =~= chars::views(kept@));
        }
    }
    layout
}

/// Summarises the output of `cargo test`.
pub fn filter_cargo_test(output: &str) -> (r: String)
    ensures
        r@ == test_summary(output@),
{
    let text = text::chars_of(output);
    let lines = text::split_lines(text.as_slice());
    let mut state = TestScan::new();
    let mut i: usize = 0;
    assert(chars::views(lines@).take(0) =~= Seq::empty());
    while i < lines.len()
        invariant
            i <= lines.len(),
            state@ == scan(chars::views(lines@).take(i as int)),
        decreases lines.len() - i,
    {
        proof {
            let next = chars::views(lines@).take(i + 1);
            assert(next.drop_last() =~= chars::views(lines@).take(i as int));
            assert(next.last() == lines[i as int]@);
        }
        state = state.step(lines[i].as_slice());
        i += 1;
    }
    assert(chars::views(lines@).take(lines.len() as int) =~= chars::views(lines@));
    let ghost model = state@;
    let (failures, summaries) = state.finish();
    if failures.len() > 0 {
        let layout = failed_lines(&failures, &summaries);
        proof {
            let flat = TestModel {
                failures: chars::views(failures@),
                current: Seq::empty(),
                summaries: chars::views(summaries@),
                in_failures: false,
            };
            assert(flat.all_failures() == model.all_failures());
            assert(flat.failed_layout() == model.failed_layout());
        }
        render(&layout)
    } else if summaries.len() > 0 {
        let layout = passed_lines(&summaries);
        proof {
            assert(chars::views(layout@) =~= model.passed_layout());
        }
        render(&layout)
    } else {
        let layout = fallback_lines(&lines);
        render(&layout)
    }
}

/// Whether a line inside the region of failure details belongs to a
/// failure: it is neither noise nor blank, and no header or result line.
pub open spec fn is_detail(line: Seq<char>) -> bool {
    line_kind(line) is Detail || line_kind(line) is Other
}

/// The lines of `lines` that the scan takes for details of failures, in
/// order.
pub open spec fn details(lines: Seq<Seq<char>>) -> Seq<Seq<char>>
    decreases lines.len(),
{
    if lines.len() == 0 {
        Seq::empty()
    } else if scan(lines.drop_last()).in_failures && is_detail(lines.last()) {
        details(lines.drop_last()).push(lines.last())
    } else {
        details(lines.drop_last())
    }
}

/// Line `k` of the last lines of unrecognised output, as the summary
/// shows it: the first one without the whitespace before it.
pub open spec fn fallback_line(kept: Seq<Seq<char>>, k: int) -> Seq<char> {
    if k == 0 {
        chars::trim_start(kept[k])
    } else {
        kept[k]
    }
}

/// Whether the summary of `text` takes no count summary over from the
/// output. With failures: no line of a failure, as the summary shows it
/// (numbered, and cut to `FAILURE_WIDTH`), is a count summary. With result
/// lines and no failure: always. With neither: none of the last
/// `FALLBACK_LINES` meaningful lines is one.
pub open spec fn keeps_no_count_summary(text: Seq<char>) -> bool {
    let lines = chars::lines(text);
    let model = scan(lines);
    let all = model.all_failures();
    let kept = last_lines(meaningful(lines), FALLBACK_LINES as nat);
    if all.len() > 0 {
        forall|i: int|
            0 <= i < shown(all.len(), MAX_FAILURES as nat) ==> discreet(
                #[trigger] failure_entry(all, i),
            )
    } else if model.summaries.len() > 0 {
        true
    } else {
        forall|k: int| 0 <= k < kept.len() ==> !is_count_summary(#[trigger] fallback_line(kept, k))
    }
}

/// The result lines that a scan keeps are plain, when the lines hold no
/// line feed.
pub proof fn lemma_results_are_plain(lines: Seq<Seq<char>>)
    requires
        forall|j: int| 0 <= j < lines.len() ==> chars::no_line_feed(#[trigger] lines[j]),
    ensures
        layout_plain(scan(lines).summaries),
    decreases lines.len(),
{
    if lines.len() > 0 {
        let head = lines.drop_last();
        let line = lines.last();
        assert forall|j: int| 0 <= j < head.len() implies chars::no_line_feed(
            #[trigger] head[j],
        ) by {
            assert(head[j] == lines[j]);
        }
        lemma_results_are_plain(head);
        assert(chars::no_line_feed(lines[lines.len() - 1]));
        let before = scan(head).summaries;
        if line_kind(line) is ResultSummary {
            reveal_strlit("test result:");
            assert(line.subrange(0, "test result:"@.len() as int)[0] == "test result:"@[0]);
            assert(plain(line));
        }
        assert forall|i: int| 0 <= i < scan(lines).summaries.len() implies plain(
            #[trigger] scan(lines).summaries[i],
        ) by {
            if i < before.len() {
                assert(plain(before[i]));
            }
        }
    }
}

/// The details of the lines before the last are the first of the details
/// of all.
pub proof fn lemma_details_grow(lines: Seq<Seq<char>>)
    requires
        lines.len() > 0,
    ensures
        details(lines.drop_last()).len() <= details(lines).len(),
        forall|i: int|
            0 <= i < details(lines.drop_last()).len() ==> #[trigger] details(lines.drop_last())[i]
                == details(lines)[i],
{
}

/// Where no detail of a failure is a count summary, no line of a failure
/// that the scan has gathered is one.
pub proof fn lemma_scan_discreet(lines: Seq<Seq<char>>)
    requires
        forall|j: int| 0 <= j < lines.len() ==> chars::no_line_feed(#[trigger] lines[j]),
        forall|i: int|
            0 <= i < details(lines).len() ==> !is_count_summary(#[trigger] details(lines)[i]),
    ensures
        layout_discreet(scan(lines).failures),
        layout_discreet(scan(lines).current),
        layout_discreet(scan(lines).all_failures()),
    decreases lines.len(),
{
    let m = scan(lines);
    if lines.len() > 0 {
        let head = lines.drop_last();
        let line = lines.last();
        let before = scan(head);
        assert forall|j: int| 0 <= j < head.len() implies chars::no_line_feed(
            #[trigger] head[j],
        ) by {
            assert(head[j] == lines[j]);
        }
        lemma_details_grow(lines);
        assert forall|i: int| 0 <= i < details(head).len() implies !is_count_summary(
            #[trigger] details(head)[i],
        ) by {
            assert(details(head)[i] == details(lines)[i]);
        }
        lemma_scan_discreet(head);
        assert(chars::no_line_feed(lines[lines.len() - 1]));
        if before.in_failures && is_detail(line) {
            assert(details(lines)[details(lines).len() - 1] == line);
            lemma_presentable_is_discreet(line);
            assert forall|i: int| 0 <= i < m.current.len() implies discreet(
                #[trigger] m.current[i],
            ) by {
                if i < before.current.len() {
                    assert(discreet(before.current[i]));
                }
            }
        }
        if line_kind(line) is BlankLine && before.in_failures && before.current.len() > 0 {
            lemma_joined_is_discreet(before.current);
            assert forall|i: int| 0 <= i < m.failures.len() implies discreet(
                #[trigger] m.failures[i],
            ) by {
                if i < before.failures.len() {
                    assert(discreet(before.failures[i]));
                }
            }
        }
    }
    if m.current.len() > 0 {
        lemma_joined_is_discreet(m.current);
        assert forall|i: int| 0 <= i < m.all_failures().len() implies discreet(
            #[trigger] m.all_failures()[i],
        ) by {
            if i < m.failures.len() {
                assert(discreet(m.failures[i]));
            }
        }
    }
}

/// The entries of discreet failures are discreet.
pub proof fn lemma_failure_entries_discreet(failures: Seq<Seq<char>>, k: nat)
    requires
        layout_discreet(failures),
        k <= failures.len(),
    ensures
        forall|i: int| 0 <= i < k ==> discreet(#[trigger] failure_entry(failures, i)),
{
    assert forall|i: int| 0 <= i < k implies discreet(#[trigger] failure_entry(failures, i)) by {
        reveal_strlit(". ");
        let number = chars::decimal((i + 1) as nat);
        chars::lemma_decimal_is_digits((i + 1) as nat);
        chars::lemma_joint_holds_no_line_feed(number, ". "@);
        let label = number + ". "@;
        assert(label[0] == number[0]);
        assert(discreet(failures[i]));
        lemma_truncated_is_discreet(failures[i], FAILURE_WIDTH as int);
        lemma_labelled_is_discreet(label, chars::truncate(failures[i], FAILURE_WIDTH as int));
    }
}

/// A summary takes no count summary over from the output when no detail
/// of a failure, and none of the last lines of unrecognised output, is
/// one.
pub proof fn lemma_details_decide(text: Seq<char>)
    requires
        forall|i: int|
            0 <= i < details(chars::lines(text)).len() ==> !is_count_summary(
                #[trigger] details(chars::lines(text))[i],
            ),
        forall|k: int|
            0 <= k < last_lines(meaningful(chars::lines(text)), FALLBACK_LINES as nat).len()
                ==> !is_count_summary(
                #[trigger] fallback_line(
                    last_lines(meaningful(chars::lines(text)), FALLBACK_LINES as nat),
                    k,
                ),
            ),
    ensures
        keeps_no_count_summary(text),
{
    let lines = chars::lines(text);
    chars::lemma_lines_hold_no_line_feed(text, 0);
    lemma_scan_discreet(lines);
    let all = scan(lines).all_failures();
    lemma_failure_entries_discreet(all, shown(all.len(), MAX_FAILURES as nat));
}

/// The summary of a run with failures begins visibly and is discreet, when
/// the result lines are plain and the failures discreet as it shows them.
pub proof fn lemma_failed_layout_discreet(m: TestModel)
    requires
        layout_plain(m.summaries),
        forall|i: int|
            0 <= i < shown(m.all_failures().len(), MAX_FAILURES as nat) ==> discreet(
                #[trigger] failure_entry(m.all_failures(), i),
            ),
    ensures
        begins_visibly(m.failed_layout()),
        layout_discreet(m.failed_layout()),
{
    reveal_strlit("FAILURES (");
    reveal_strlit("):");
    reveal_strlit("failures");
    let all = m.all_failures();
    let total = chars::decimal(all.len());
    chars::lemma_decimal_is_digits(all.len());
    chars::lemma_joint_holds_no_line_feed("FAILURES ("@, total);
    chars::lemma_joint_holds_no_line_feed("FAILURES ("@ + total, "):"@);
    let headline = "FAILURES ("@ + total + "):"@;
    assert(headline[0] == 'F');
    lemma_separator_plain();
    let top = seq![headline, separator()];
    assert(layout_plain(top)) by {
        assert forall|k: int| 0 <= k < top.len() implies plain(#[trigger] top[k]) by {
            if k == 0 {
                assert(top[k] == headline);
            } else {
                assert(top[k] == separator());
            }
        }
    }
    lemma_plain_is_discreet(top);
    let entries = failure_entries(all, shown(all.len(), MAX_FAILURES as nat));
    assert forall|i: int| 0 <= i < entries.len() implies discreet(#[trigger] entries[i]) by {
        assert(discreet(failure_entry(all, i)));
    }
    lemma_layouts_discreet(top, entries);
    let note = overflow_note(hidden(all.len(), MAX_FAILURES as nat), "failures"@);
    lemma_overflow_note_plain(hidden(all.len(), MAX_FAILURES as nat), "failures"@);
    lemma_plain_is_discreet(note);
    lemma_layouts_discreet(top + entries, note);
    let gap = seq![Seq::<char>::empty()];
    assert(layout_plain(gap));
    lemma_plain_is_discreet(gap);
    lemma_layouts_discreet(top + entries + note, gap);
    lemma_plain_is_discreet(m.summaries);
    lemma_layouts_discreet(top + entries + note + gap, m.summaries);
    assert(m.failed_layout()[0] == headline);
}

/// The meaningful ones of lines without line feed hold none, and none of
/// them is blank.
pub proof fn lemma_meaningful_lines(lines: Seq<Seq<char>>)
    requires
        forall|j: int| 0 <= j < lines.len() ==> chars::no_line_feed(#[trigger] lines[j]),
    ensures
        forall|i: int|
            0 <= i < meaningful(lines).len() ==> chars::no_line_feed(
                #[trigger] meaningful(lines)[i],
            ) && !chars::is_blank(meaningful(lines)[i]),
    decreases lines.len(),
{
    if lines.len() > 0 {
        let head = lines.drop_last();
        assert forall|j: int| 0 <= j < head.len() implies chars::no_line_feed(
            #[trigger] head[j],
        ) by {
            assert(head[j] == lines[j]);
        }
        lemma_meaningful_lines(head);
        assert(chars::no_line_feed(lines[lines.len() - 1]));
        let before = meaningful(head);
        assert forall|i: int| 0 <= i < meaningful(lines).len() implies chars::no_line_feed(
            #[trigger] meaningful(lines)[i],
        ) && !chars::is_blank(meaningful(lines)[i]) by {
            if i < before.len() {
                assert(chars::no_line_feed(before[i]));
            }
        }
    }
}

/// The summary of a test run adds no count summary of its own: where it
/// takes none over from the output, among the failures as it shows them
/// or among the last lines of unrecognised output, no line of it is one.
/// The summary of a run with result lines and no failure never shows one.
pub proof fn lemma_no_count_summary_shown(text: Seq<char>)
    requires
        keeps_no_count_summary(text),
    ensures
        forall|i: int|
            0 <= i < chars::lines(test_summary(text)).len() ==> !is_count_summary(
                #[trigger] chars::lines(test_summary(text))[i],
            ),
{
    let lines = chars::lines(text);
    chars::lemma_lines_hold_no_line_feed(text, 0);
    lemma_results_are_plain(lines);
    let model = scan(lines);
    if model.all_failures().len() > 0 {
        lemma_failed_layout_discreet(model);
        lemma_rendered_is_discreet(model.failed_layout());
    } else if model.summaries.len() > 0 {
        let layout = model.passed_layout();
        reveal_strlit("\u{2713} ");
        assert forall|k: int| 0 <= k < layout.len() implies plain(#[trigger] layout[k]) by {
            assert(plain(model.summaries[k]));
            chars::lemma_joint_holds_no_line_feed("\u{2713} "@, model.summaries[k]);
            assert(layout[k][0] == '\u{2713}');
        }
        assert(layout[0][0] == '\u{2713}');
        lemma_rendered_is_unmarked(layout);
        let shown_lines = chars::lines(rendered(layout));
        assert forall|i: int| 0 <= i < shown_lines.len() implies !is_count_summary(
            #[trigger] shown_lines[i],
        ) by {
            lemma_unmarked_is_no_summary(shown_lines[i]);
        }
    } else {
        lemma_meaningful_lines(lines);
        let all_kept = meaningful(lines);
        let kept = last_lines(all_kept, FALLBACK_LINES as nat);
        if kept.len() > 0 {
            let offset = all_kept.len() - kept.len();
            assert forall|k: int| 0 <= k < kept.len() implies chars::no_line_feed(
                #[trigger] kept[k],
            ) && !chars::is_blank(kept[k]) by {
                assert(kept[k] == all_kept[offset + k]);
                assert(chars::no_line_feed(all_kept[offset + k]));
            }
            assert(!chars::is_blank(kept[0]));
            lemma_rendered_from_first_mark(kept);
            let shown_layout = from_index(kept, chars::skip_whitespace(kept[0], 0));
            assert(shown_layout[0] == chars::trim_start(kept[0]));
            assert forall|k: int| 0 <= k < shown_layout.len() implies discreet(
                #[trigger] shown_layout[k],
            ) by {
                assert(chars::no_line_feed(kept[k]));
                assert(!is_count_summary(fallback_line(kept, k)));
                assert(shown_layout[k] == fallback_line(kept, k));
                chars::lemma_trimmed_holds_no_line_feed(kept[k]);
                lemma_presentable_is_discreet(shown_layout[k]);
            }
            lemma_rendered_is_discreet(shown_layout);
        } else {
            assert(chars::unlines(kept) =~= Seq::<char>::empty());
            assert(rendered(kept) =~= Seq::<char>::empty());
        }
    }
}

/// Whether the line is empty or begins with a check mark.
pub open spec fn ticked(line: Seq<char>) -> bool {
    line.len() == 0 || line[0] == '\u{2713}'
}

/// A scan outside the region of failure details takes nothing from a line
/// that is empty or begins with a check mark.
pub proof fn lemma_ticked_is_passed_over(m: TestModel, line: Seq<char>)
    requires
        ticked(line),
        !m.in_failures,
    ensures
        m.step(line) == m,
{
    reveal_strlit("failures:");
    reveal_strlit("test result:");
    if chars::starts_with(line, "test result:"@) {
        assert(line.subrange(0, "test result:"@.len() as int)[0] == "test result:"@[0]);
    }
}

/// A scan of lines that are empty or begin with a check mark gathers
/// nothing.
pub proof fn lemma_scan_of_ticked(lines: Seq<Seq<char>>)
    requires
        forall|i: int| 0 <= i < lines.len() ==> ticked(#[trigger] lines[i]),
    ensures
        scan(lines) == TestModel::empty(),
    decreases lines.len(),
{
    if lines.len() > 0 {
        let head = lines.drop_last();
        assert forall|i: int| 0 <= i < head.len() implies ticked(#[trigger] head[i]) by {
            assert(head[i] == lines[i]);
        }
        lemma_scan_of_ticked(head);
        assert(ticked(lines[lines.len() - 1]));
        lemma_ticked_is_passed_over(scan(head), lines.last());
    }
}

/// The summary of a run without failures, summarised again, reports no
/// failure and no result: a scan of it gathers nothing, for each of its
/// lines begins with a check mark.
pub proof fn lemma_passed_summary_holds_no_failure(text: Seq<char>)
    requires
        scan(chars::lines(text)).all_failures().len() == 0,
        scan(chars::lines(text)).summaries.len() > 0,
    ensures
        scan(chars::lines(test_summary(text))) == TestModel::empty(),
{
    let model = scan(chars::lines(text));
    let layout = model.passed_layout();
    chars::lemma_lines_hold_no_line_feed(text, 0);
    lemma_results_are_plain(chars::lines(text));
    reveal_strlit("\u{2713} ");
    assert forall|k: int| 0 <= k < layout.len() implies chars::no_line_feed(
        #[trigger] layout[k],
    ) by {
        assert(plain(model.summaries[k]));
        chars::lemma_joint_holds_no_line_feed("\u{2713} "@, model.summaries[k]);
    }
    assert(layout[0][0] == '\u{2713}');
    lemma_rendered_is_beginning(layout);
    let whole = chars::unlines(layout);
    let len = chars::skip_whitespace_back(whole, whole.len() as int);
    assert(layout.take(0) =~= Seq::empty());
    chars::lemma_lines_of_beginning(layout, len, 0);
    let shown_lines = chars::lines(rendered(layout));
    assert forall|i: int| 0 <= i < shown_lines.len() implies ticked(#[trigger] shown_lines[i]) by {
        assert(chars::begins_line(shown_lines[i], layout, 0 + i));
        let to = choose|to: int|
            0 <= to <= layout[i].len() && shown_lines[i] == #[trigger] chars::cut(layout, i, to);
        if to > 0 {
            assert(shown_lines[i][0] == layout[i][0]);
        }
    }
    lemma_scan_of_ticked(shown_lines);
}

/// Whether the summary of `text` takes no noise over from the output with
/// its failures: no line of a failure, as the summary shows it, and no
/// result line is noise, with or without the whitespace at its end.
pub open spec fn keeps_no_noise(text: Seq<char>) -> bool {
    let model = scan(chars::lines(text));
    let all = model.all_failures();
    all.len() > 0 ==> layout_quiet(model.summaries) && forall|i: int|
        0 <= i < shown(all.len(), MAX_FAILURES as nat) ==> quiet(#[trigger] failure_entry(all, i))
}

/// Every layout of plain lines that begin as no noise does is quiet.
pub proof fn lemma_unobtrusive_layout_is_quiet(layout: Seq<Seq<char>>)
    requires
        forall|k: int|
            0 <= k < layout.len() ==> chars::no_line_feed(#[trigger] layout[k]) && unobtrusive(
                layout[k],
            ),
    ensures
        layout_quiet(layout),
{
    assert forall|k: int| 0 <= k < layout.len() implies quiet(#[trigger] layout[k]) by {
        assert(chars::no_line_feed(layout[k]));
        lemma_unobtrusive_is_quiet(layout[k]);
    }
}

/// The summary of a run with failures is quiet, when the result lines are
/// and the failures as it shows them.
pub proof fn lemma_failed_layout_quiet(m: TestModel)
    requires
        layout_quiet(m.summaries),
        forall|i: int|
            0 <= i < shown(m.all_failures().len(), MAX_FAILURES as nat) ==> quiet(
                #[trigger] failure_entry(m.all_failures(), i),
            ),
    ensures
        begins_visibly(m.failed_layout()),
        layout_quiet(m.failed_layout()),
{
    reveal_strlit("FAILURES (");
    reveal_strlit("):");
    reveal_strlit("failures");
    reveal_strlit("... +");
    reveal_strlit(" more ");
    let all = m.all_failures();
    let total = chars::decimal(all.len());
    chars::lemma_decimal_is_digits(all.len());
    chars::lemma_joint_holds_no_line_feed("FAILURES ("@, total);
    chars::lemma_joint_holds_no_line_feed("FAILURES ("@ + total, "):"@);
    let headline = "FAILURES ("@ + total + "):"@;
    assert(headline[0] == 'F' && headline[1] == 'A');
    lemma_separator_plain();
    let top = seq![headline, separator()];
    assert forall|k: int| 0 <= k < top.len() implies chars::no_line_feed(#[trigger] top[k])
        && unobtrusive(top[k]) by {
        if k == 0 {
            assert(top[k] == headline);
        } else {
            assert(top[k] == separator());
            assert(separator()[0] == '\u{2550}');
        }
    }
    lemma_unobtrusive_layout_is_quiet(top);
    let entries = failure_entries(all, shown(all.len(), MAX_FAILURES as nat));
    assert forall|i: int| 0 <= i < entries.len() implies quiet(#[trigger] entries[i]) by {
        assert(quiet(failure_entry(all, i)));
    }
    lemma_layouts_quiet(top, entries);
    let left_out = hidden(all.len(), MAX_FAILURES as nat);
    let note = overflow_note(left_out, "failures"@);
    lemma_overflow_note_plain(left_out, "failures"@);
    assert forall|k: int| 0 <= k < note.len() implies chars::no_line_feed(#[trigger] note[k])
        && unobtrusive(note[k]) by {
        assert(plain(note[k]));
        if k == 1 {
            assert(note[k][0] == '.');
        }
    }
    lemma_unobtrusive_layout_is_quiet(note);
    lemma_layouts_quiet(top + entries, note);
    let gap = seq![Seq::<char>::empty()];
    assert forall|k: int| 0 <= k < gap.len() implies chars::no_line_feed(#[trigger] gap[k])
        && unobtrusive(gap[k]) by {}
    lemma_unobtrusive_layout_is_quiet(gap);
    lemma_layouts_quiet(top + entries + note, gap);
    lemma_layouts_quiet(top + entries + note + gap, m.summaries);
    assert(m.failed_layout()[0] == headline);
}

/// The summary of a test run that has failures or result lines shows no
/// noise: no progress line, no announcement of a run and no test that
/// passed. Of a run with failures this holds where the summary takes no
/// noise over with the failures and the result lines, which it shows as
/// they came; such a line can turn into noise when a carriage return or
/// the whitespace at the end of the summary is taken from it.
pub proof fn lemma_no_noise_shown(text: Seq<char>)
    requires
        scan(chars::lines(text)).all_failures().len() > 0 || scan(
            chars::lines(text),
        ).summaries.len() > 0,
        keeps_no_noise(text),
    ensures
        forall|i: int|
            0 <= i < chars::lines(test_summary(text)).len() ==> !is_noise(
                #[trigger] chars::lines(test_summary(text))[i],
            ),
{
    let lines = chars::lines(text);
    chars::lemma_lines_hold_no_line_feed(text, 0);
    lemma_results_are_plain(lines);
    let model = scan(lines);
    if model.all_failures().len() > 0 {
        lemma_failed_layout_quiet(model);
        lemma_rendered_is_quiet(model.failed_layout());
    } else {
        let layout = model.passed_layout();
        reveal_strlit("\u{2713} ");
        assert forall|k: int| 0 <= k < layout.len() implies chars::no_line_feed(
            #[trigger] layout[k],
        ) && unobtrusive(layout[k]) by {
            assert(plain(model.summaries[k]));
            chars::lemma_joint_holds_no_line_feed("\u{2713} "@, model.summaries[k]);
            assert(layout[k][0] == '\u{2713}');
        }
        assert(layout[0][0] == '\u{2713}');
        lemma_unobtrusive_layout_is_quiet(layout);
        lemma_rendered_is_quiet(layout);
    }
}

/// Where no detail of a failure is a test that passed once the whitespace
/// at its end is gone, every failure that the scan has gathered is quiet.
pub proof fn lemma_scan_quiet(lines: Seq<Seq<char>>)
    requires
        forall|j: int| 0 <= j < lines.len() ==> chars::no_line_feed(#[trigger] lines[j]),
        forall|i: int|
            0 <= i < details(lines).len() ==> !is_passing(
                chars::trim_end(#[trigger] details(lines)[i]),
            ),
    ensures
        layout_quiet(scan(lines).failures),
        layout_quiet(scan(lines).current),
        layout_quiet(scan(lines).all_failures()),
    decreases lines.len(),
{
    let m = scan(lines);
    if lines.len() > 0 {
        let head = lines.drop_last();
        let line = lines.last();
        let before = scan(head);
        assert forall|j: int| 0 <= j < head.len() implies chars::no_line_feed(
            #[trigger] head[j],
        ) by {
            assert(head[j] == lines[j]);
        }
        lemma_details_grow(lines);
        assert forall|i: int| 0 <= i < details(head).len() implies !is_passing(
            chars::trim_end(#[trigger] details(head)[i]),
        ) by {
            assert(details(head)[i] == details(lines)[i]);
        }
        lemma_scan_quiet(head);
        assert(chars::no_line_feed(lines[lines.len() - 1]));
        if before.in_failures && is_detail(line) {
            assert(details(lines)[details(lines).len() - 1] == line);
            lemma_line_is_quiet(line);
            assert forall|i: int| 0 <= i < m.current.len() implies quiet(
                #[trigger] m.current[i],
            ) by {
                if i < before.current.len() {
                    assert(quiet(before.current[i]));
                }
            }
        }
        if line_kind(line) is BlankLine && before.in_failures && before.current.len() > 0 {
            lemma_joined_is_quiet(before.current);
            assert forall|i: int| 0 <= i < m.failures.len() implies quiet(
                #[trigger] m.failures[i],
            ) by {
                if i < before.failures.len() {
                    assert(quiet(before.failures[i]));
                }
            }
        }
    }
    if m.current.len() > 0 {
        lemma_joined_is_quiet(m.current);
        assert forall|i: int| 0 <= i < m.all_failures().len() implies quiet(
            #[trigger] m.all_failures()[i],
        ) by {
            if i < m.failures.len() {
                assert(quiet(m.failures[i]));
            }
        }
    }
}

/// The scan keeps as result lines only lines that are no noise.
pub proof fn lemma_results_are_no_noise(lines: Seq<Seq<char>>)
    ensures
        forall|i: int|
            0 <= i < scan(lines).summaries.len() ==> !is_noise(#[trigger] scan(lines).summaries[i]),
    decreases lines.len(),
{
    if lines.len() > 0 {
        let head = lines.drop_last();
        lemma_results_are_no_noise(head);
        let before = scan(head).summaries;
        assert forall|i: int| 0 <= i < scan(lines).summaries.len() implies !is_noise(
            #[trigger] scan(lines).summaries[i],
        ) by {
            if i < before.len() {
                assert(!is_noise(before[i]));
            }
        }
    }
}

/// The entries of quiet failures are quiet.
pub proof fn lemma_failure_entries_quiet(failures: Seq<Seq<char>>, k: nat)
    requires
        layout_quiet(failures),
        k <= failures.len(),
    ensures
        forall|i: int| 0 <= i < k ==> quiet(#[trigger] failure_entry(failures, i)),
{
    assert forall|i: int| 0 <= i < k implies quiet(#[trigger] failure_entry(failures, i)) by {
        reveal_strlit(". ");
        let number = chars::decimal((i + 1) as nat);
        chars::lemma_decimal_is_digits((i + 1) as nat);
        chars::lemma_joint_holds_no_line_feed(number, ". "@);
        let label = number + ". "@;
        assert(label[0] == number[0]);
        assert(quiet(failures[i]));
        lemma_truncated_is_quiet(failures[i], FAILURE_WIDTH as int);
        lemma_labelled_is_quiet(label, chars::truncate(failures[i], FAILURE_WIDTH as int));
    }
}

/// A summary takes no noise over from the output when no detail of a
/// failure and no result line is a test that passed once the whitespace
/// at its end is gone.
pub proof fn lemma_gathered_lines_decide(text: Seq<char>)
    requires
        forall|i: int|
            0 <= i < details(chars::lines(text)).len() ==> !is_passing(
                chars::trim_end(#[trigger] details(chars::lines(text))[i]),
            ),
        forall|i: int|
            0 <= i < scan(chars::lines(text)).summaries.len() ==> !is_passing(
                chars::trim_end(#[trigger] scan(chars::lines(text)).summaries[i]),
            ),
    ensures
        keeps_no_noise(text),
{
    let lines = chars::lines(text);
    chars::lemma_lines_hold_no_line_feed(text, 0);
    lemma_scan_quiet(lines);
    let model = scan(lines);
    let all = model.all_failures();
    lemma_failure_entries_quiet(all, shown(all.len(), MAX_FAILURES as nat));
    lemma_results_are_plain(lines);
    lemma_results_are_no_noise(lines);
    assert forall|i: int| 0 <= i < model.summaries.len() implies quiet(
        #[trigger] model.summaries[i],
    ) by {
        assert(plain(model.summaries[i]));
        lemma_line_is_quiet(model.summaries[i]);
    }
}

} // verus!
