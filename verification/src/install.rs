//! The summary of `cargo install`: which crate was installed, how many
//! dependencies were compiled, what was replaced, and the errors if it
//! failed.

use crate::blocks::{
    blocks_headed, blocks_presentable, lemma_begin_consistent, lemma_begin_headed,
    lemma_begin_presentable, lemma_empty_consistent, lemma_feed_consistent, lemma_feed_headed,
    lemma_feed_presentable, Accumulation, Accumulator, Severity,
};
use crate::chars;
use crate::classify::{
    is_count_summary, is_error_start, lemma_marks_add, lemma_marks_differ, lemma_no_marks,
    lemma_unmarked_is_no_summary, marked, marks, mentions_abort, mentions_generated, plain,
    presentable, speaks_of_abort, speaks_of_generated, starts_error,
};
use crate::render::{
    block_section, layout_plain, layout_presentable, lemma_beginning_marks,
    lemma_block_section_marks, lemma_block_section_presentable, lemma_joined_shows_no_summary,
    lemma_layouts_presentable, lemma_line_shows_no_summary, lemma_plain_is_presentable,
    lemma_rendered_marks, lemma_rendered_shows_no_summary, lemma_separator_presentable,
    push_block_section, push_line, render, rendered, separator, separator_line,
};
use crate::text;
use vstd::prelude::*;
use vstd::slice::slice_subrange;

verus! {

/// What a line of install output is.
#[derive(Clone, Copy, Debug)]
pub enum InstallLine {
    /// A dependency was compiled.
    Progress,
    /// Chatter: downloads, locks, index updates, the "Finished" line.
    Noise,
    /// The line that announces what is being installed.
    Installing,
    /// The line that reports what was installed.
    Installed,
    /// A "Replacing" or "Replaced" line.
    Replace,
    /// The package is already installed.
    Ignored,
    /// A `warning:` line that asks for something to be done.
    Advice,
    /// A count summary; it is dropped.
    Summary,
    /// The header of an error.
    ErrorStart,
    /// Anything else.
    Body,
}

/// Whether the text begins with a word of install chatter.
pub open spec fn is_chatter(t: Seq<char>) -> bool {
    ||| chars::starts_with(t, "Downloading"@)
    ||| chars::starts_with(t, "Downloaded"@)
    ||| chars::starts_with(t, "Locking"@)
    ||| chars::starts_with(t, "Updating"@)
    ||| chars::starts_with(t, "Adding"@)
    ||| chars::starts_with(t, "Finished"@)
    ||| chars::starts_with(t, "Blocking waiting for file lock"@)
}

/// What a line of install output is.
pub open spec fn line_kind(line: Seq<char>) -> InstallLine {
    let t = chars::trim_start(line);
    if chars::starts_with(t, "Compiling"@) {
        InstallLine::Progress
    } else if is_chatter(t) {
        InstallLine::Noise
    } else if chars::starts_with(t, "Installing"@) {
        InstallLine::Installing
    } else if chars::starts_with(t, "Installed"@) {
        InstallLine::Installed
    } else if chars::starts_with(t, "Replacing"@) || chars::starts_with(t, "Replaced"@) {
        InstallLine::Replace
    } else if chars::starts_with(t, "Ignored package"@) {
        InstallLine::Ignored
    } else if chars::starts_with(line, "warning:"@) {
        if mentions_generated(line) {
            InstallLine::Summary
        } else {
            InstallLine::Advice
        }
    } else if is_error_start(line) {
        if mentions_abort(line) {
            InstallLine::Summary
        } else {
            InstallLine::ErrorStart
        }
    } else {
        InstallLine::Body
    }
}

/// What follows `word` on a line that begins with it, after its leading
/// whitespace, without the whitespace around it.
pub open spec fn after_word(line: Seq<char>, word: Seq<char>) -> Seq<char> {
    chars::trim(chars::tail(chars::trim_start(line), word.len() as int))
}

/// The name of a crate with its version: the fallback when there is no
/// name, the name alone when there is no version.
pub open spec fn crate_info(name: Seq<char>, version: Seq<char>, fallback: Seq<char>) -> Seq<
    char,
> {
    if name.len() == 0 {
        fallback
    } else if version.len() == 0 {
        name
    } else {
        name + " "@ + version
    }
}

/// The text between the first two backticks of `line`; what follows the
/// first backtick when there is no second; the whole line when there is
/// none.
pub open spec fn quoted(line: Seq<char>) -> Seq<char> {
    let open = chars::find_char(line, '`', 0);
    if open >= line.len() {
        line
    } else {
        line.subrange(open + 1, chars::find_char(line, '`', open + 1))
    }
}

/// Each of `notes` behind two spaces.
pub open spec fn indented(notes: Seq<Seq<char>>) -> Seq<Seq<char>> {
    Seq::new(notes.len(), |i: int| "  "@ + notes[i])
}

/// What the scan of an installation has gathered.
pub struct InstallModel {
    /// How many dependencies were compiled.
    pub compiled: nat,
    /// The name of the crate, empty while unknown.
    pub name: Seq<char>,
    /// The version of the crate, empty while unknown.
    pub version: Seq<char>,
    /// The lines on replaced binaries and the warnings that ask for
    /// something, in the order in which they came.
    pub notes: Seq<Seq<char>>,
    /// The line that says that the package is already installed.
    pub ignored: Option<Seq<char>>,
    /// The errors.
    pub acc: Accumulation,
}

impl InstallModel {
    /// Nothing seen yet.
    pub open spec fn empty() -> InstallModel {
        InstallModel {
            compiled: 0,
            name: Seq::empty(),
            version: Seq::empty(),
            notes: Seq::empty(),
            ignored: None,
            acc: Accumulation::empty(),
        }
    }

    /// The model after "Installing" followed by `rest`. A path names no
    /// crate. Otherwise the first space parts name and version; without a
    /// space `rest` is the name and the version stays.
    pub open spec fn installing(self, rest: Seq<char>) -> InstallModel {
        if rest.len() == 0 || rest[0] == '/' {
            self
        } else {
            let space = chars::find_char(rest, ' ', 0);
            if space < rest.len() {
                InstallModel {
                    name: rest.subrange(0, space),
                    version: rest.subrange(space + 1, rest.len() as int),
                    ..self
                }
            } else {
                InstallModel { name: rest, ..self }
            }
        }
    }

    /// The model after "Installed" followed by `rest`: while no name is
    /// known, the first two words of `rest` are name and version.
    pub open spec fn installed(self, rest: Seq<char>) -> InstallModel {
        if rest.len() == 0 || self.name.len() > 0 {
            self
        } else {
            let first_end = chars::find_whitespace(rest, 0);
            let second = chars::skip_whitespace(rest, first_end);
            if second < rest.len() {
                InstallModel {
                    name: rest.subrange(0, first_end),
                    version: rest.subrange(second, chars::find_whitespace(rest, second)),
                    ..self
                }
            } else {
                self
            }
        }
    }

    /// The model after one more line.
    pub open spec fn step(self, line: Seq<char>) -> InstallModel {
        match line_kind(line) {
            InstallLine::Progress => InstallModel { compiled: self.compiled + 1, ..self },
            InstallLine::Noise | InstallLine::Summary => self,
            InstallLine::Installing => self.installing(after_word(line, "Installing"@)),
            InstallLine::Installed => self.installed(after_word(line, "Installed"@)),
            InstallLine::Replace => InstallModel {
                notes: self.notes.push(chars::trim_start(line)),
                ..self
            },
            InstallLine::Ignored => InstallModel {
                ignored: Some(chars::trim_start(line)),
                ..self
            },
            InstallLine::Advice => InstallModel { notes: self.notes.push(line), ..self },
            InstallLine::ErrorStart => InstallModel {
                acc: self.acc.begin(Severity::Error, line),
                ..self
            },
            InstallLine::Body => InstallModel { acc: self.acc.feed(line), ..self },
        }
    }

    /// The part of the headline that tells of the dependencies compiled.
    pub open spec fn compiled_part(self) -> Seq<char> {
        if self.compiled > 0 {
            ", "@ + chars::decimal(self.compiled) + " deps compiled"@
        } else {
            Seq::empty()
        }
    }

    /// The headline of a failed installation.
    pub open spec fn failure_headline(self) -> Seq<char> {
        let count = "cargo install: "@ + chars::decimal(self.acc.errors) + " error"@ + if self.acc.errors
            > 1 {
            "s"@
        } else {
            Seq::empty()
        };
        if self.name.len() == 0 {
            count + self.compiled_part()
        } else {
            count + " ("@ + crate_info(self.name, self.version, Seq::empty())
                + self.compiled_part() + ")"@
        }
    }

    /// The lines of the summary of a failed installation.
    pub open spec fn failure_layout(self) -> Seq<Seq<char>> {
        seq![self.failure_headline(), separator()] + block_section(self.acc.blocks())
    }

    /// The headline of a successful installation.
    pub open spec fn success_headline(self) -> Seq<char> {
        "\u{2713} cargo install ("@ + crate_info(self.name, self.version, "package"@) + ", "@
            + chars::decimal(self.compiled) + " deps compiled)"@
    }

    /// The lines of the summary of a successful installation.
    pub open spec fn success_layout(self) -> Seq<Seq<char>> {
        seq![self.success_headline()] + indented(self.notes)
    }

    /// The summary. A package that is already installed gives one line
    /// whatever else was seen; else errors give the failure summary; else
    /// the success line is followed by the notes.
    pub open spec fn summary(self) -> Seq<char> {
        match self.ignored {
            Some(line) => "\u{2713} cargo install: "@ + quoted(line) + " already installed"@,
            None => if self.acc.errors > 0 {
                rendered(self.failure_layout())
            } else {
                chars::join_lines(self.success_layout())
            },
        }
    }
}

/// The model after all of `lines`.
pub open spec fn scan(lines: Seq<Seq<char>>) -> InstallModel
    decreases lines.len(),
{
    if lines.len() == 0 {
        InstallModel::empty()
    } else {
        scan(lines.drop_last()).step(lines.last())
    }
}

/// The summary of the output `text` of `cargo install`.
pub open spec fn install_summary(text: Seq<char>) -> Seq<char> {
    scan(chars::lines(text)).summary()
}

/// The view of a line that may be there.
pub open spec fn line_view(line: Option<Vec<char>>) -> Option<Seq<char>> {
    match line {
        Some(l) => Some(l@),
        None => None,
    }
}

/// The scan as it runs.
pub struct InstallScan {
    pub compiled: usize,
    pub name: Vec<char>,
    pub version: Vec<char>,
    pub notes: Vec<Vec<char>>,
    pub ignored: Option<Vec<char>>,
    pub acc: Accumulator,
}

impl View for InstallScan {
    type V = InstallModel;

    open spec fn view(&self) -> InstallModel {
        InstallModel {
            compiled: self.compiled as nat,
            name: self.name@,
            version: self.version@,
            notes: chars::views(self.notes@),
            ignored: line_view(self.ignored),
            acc: self.acc@,
        }
    }
}

/// Whether the text begins with a word of install chatter.
pub fn chatter(t: &[char]) -> (b: bool)
    ensures
        b == is_chatter(t@),
{
    text::starts_with(t, "Downloading") || text::starts_with(t, "Downloaded") || text::starts_with(
        t,
        "Locking",
    ) || text::starts_with(t, "Updating") || text::starts_with(t, "Adding") || text::starts_with(
        t,
        "Finished",
    ) || text::starts_with(t, "Blocking waiting for file lock")
}

/// Classifies a line of install output.
pub fn classify(line: &[char]) -> (k: InstallLine)
    ensures
        k == line_kind(line@),
{
    let t = text::trim_start(line);
    if text::starts_with(t, "Compiling") {
        InstallLine::Progress
    } else if chatter(t) {
        InstallLine::Noise
    } else if text::starts_with(t, "Installing") {
        InstallLine::Installing
    } else if text::starts_with(t, "Installed") {
        InstallLine::Installed
    } else if text::starts_with(t, "Replacing") || text::starts_with(t, "Replaced") {
        InstallLine::Replace
    } else if text::starts_with(t, "Ignored package") {
        InstallLine::Ignored
    } else if text::starts_with(line, "warning:") {
        if speaks_of_generated(line) {
            InstallLine::Summary
        } else {
            InstallLine::Advice
        }
    } else if starts_error(line) {
        if speaks_of_abort(line) {
            InstallLine::Summary
        } else {
            InstallLine::ErrorStart
        }
    } else {
        InstallLine::Body
    }
}

/// What follows `word` on the line.
pub fn rest_after<'a>(line: &'a [char], word: &str) -> (r: &'a [char])
    ensures
        r@ == after_word(line@, word@),
{
    let w = text::chars_of(word);
    text::trim(text::tail(text::trim_start(line), w.len()))
}

/// The name of a crate with its version.
pub fn crate_info_of(name: &[char], version: &[char], fallback: &[char]) -> (r: Vec<char>)
    ensures
        r@ == crate_info(name@, version@, fallback@),
{
    if name.len() == 0 {
        text::to_vec(fallback)
    } else if version.len() == 0 {
        text::to_vec(name)
    } else {
        let mut r = text::to_vec(name);
        text::push_str(&mut r, " ");
        text::push_all(&mut r, version);
        r
    }
}

/// The name of a crate with its version: `fallback` when there is no name,
/// the name alone when there is no version, else both with a space between.
pub fn format_crate_info(name: &str, version: &str, fallback: &str) -> (r: String)
    ensures
        r@ == crate_info(name@, version@, fallback@),
{
    let n = text::chars_of(name);
    let v = text::chars_of(version);
    let f = text::chars_of(fallback);
    let info = crate_info_of(n.as_slice(), v.as_slice(), f.as_slice());
    text::string_of(info.as_slice())
}

/// The text between the first two backticks of `line`.
pub fn quoted_part(line: &[char]) -> (r: &[char])
    ensures
        r@ == quoted(line@),
{
    let open = text::find_char(line, '`', 0);
    if open >= line.len() {
        proof {
            assert(line@.subrange(0, line@.len() as int) =~= line@);
        }
        slice_subrange(line, 0, line.len())
    } else {
        let close = text::find_char(line, '`', open + 1);
        slice_subrange(line, open + 1, close)
    }
}

impl InstallScan {
    /// A scan that has seen nothing.
    pub fn new() -> (r: InstallScan)
        ensures
            r@ == InstallModel::empty(),
    {
        let r = InstallScan {
            compiled: 0,
            name: Vec::new(),
            version: Vec::new(),
            notes: Vec::new(),
            ignored: None,
            acc: Accumulator::new(),
        };
        assert(r@.notes =~= Seq::empty());
        r
    }

    /// Takes what follows "Installing".
    pub fn installing(self, rest: &[char]) -> (r: InstallScan)
        ensures
            r@ == self@.installing(rest@),
    {
        if rest.len() == 0 || rest[0] == '/' {
            self
        } else {
            let space = text::find_char(rest, ' ', 0);
            let InstallScan { compiled, name, version, notes, ignored, acc } = self;
            if space < rest.len() {
                InstallScan {
                    compiled,
                    name: text::to_vec(slice_subrange(rest, 0, space)),
                    version: text::to_vec(slice_subrange(rest, space + 1, rest.len())),
                    notes,
                    ignored,
                    acc,
                }
            } else {
                InstallScan { compiled, name: text::to_vec(rest), version, notes, ignored, acc }
            }
        }
    }

    /// Takes what follows "Installed".
    pub fn installed(self, rest: &[char]) -> (r: InstallScan)
        ensures
            r@ == self@.installed(rest@),
    {
        if rest.len() == 0 || self.name.len() > 0 {
            self
        } else {
            let first_end = text::find_whitespace(rest, 0);
            let second = text::skip_whitespace(rest, first_end);
            if second < rest.len() {
                let second_end = text::find_whitespace(rest, second);
                let InstallScan { compiled, name, version, notes, ignored, acc } = self;
                InstallScan {
                    compiled,
                    name: text::to_vec(slice_subrange(rest, 0, first_end)),
                    version: text::to_vec(slice_subrange(rest, second, second_end)),
                    notes,
                    ignored,
                    acc,
                }
            } else {
                self
            }
        }
    }

    /// Takes one more line.
    pub fn step(self, line: &[char]) -> (r: InstallScan)
        requires
            self@.compiled + self@.acc.errors + self@.acc.warnings < usize::MAX,
        ensures
            r@ == self@.step(line@),
    {
        match classify(line) {
            InstallLine::Progress => {
                let InstallScan { compiled, name, version, notes, ignored, acc } = self;
                InstallScan { compiled: compiled + 1, name, version, notes, ignored, acc }
            },
            InstallLine::Noise => self,
            InstallLine::Summary => self,
            InstallLine::Installing => self.installing(rest_after(line, "Installing")),
            InstallLine::Installed => self.installed(rest_after(line, "Installed")),
            InstallLine::Replace => {
                let InstallScan { compiled, name, version, notes, ignored, acc } = self;
                let mut notes = notes;
                push_line(&mut notes, text::to_vec(text::trim_start(line)));
                InstallScan { compiled, name, version, notes, ignored, acc }
            },
            InstallLine::Ignored => {
                let InstallScan { compiled, name, version, notes, ignored, acc } = self;
                InstallScan {
                    compiled,
                    name,
                    version,
                    notes,
                    ignored: Some(text::to_vec(text::trim_start(line))),
                    acc,
                }
            },
            InstallLine::Advice => {
                let InstallScan { compiled, name, version, notes, ignored, acc } = self;
                let mut notes = notes;
                push_line(&mut notes, text::to_vec(line));
                InstallScan { compiled, name, version, notes, ignored, acc }
            },
            InstallLine::ErrorStart => {
                let InstallScan { compiled, name, version, notes, ignored, acc } = self;
                InstallScan {
                    compiled,
                    name,
                    version,
                    notes,
                    ignored,
                    acc: acc.begin(Severity::Error, line),
                }
            },
            InstallLine::Body => {
                let InstallScan { compiled, name, version, notes, ignored, acc } = self;
                InstallScan { compiled, name, version, notes, ignored, acc: acc.feed(line) }
            },
        }
    }

    /// Renders the summary.
    pub fn summary(self) -> (r: String)
        ensures
            r@ == self@.summary(),
    {
        let ghost model = self@;
        let InstallScan { compiled, name, version, notes, ignored, acc } = self;
        match ignored {
            Some(line) => {
                let mut out: Vec<char> = Vec::new();
                text::push_str(&mut out, "\u{2713} cargo install: ");
                text::push_all(&mut out, quoted_part(line.as_slice()));
                text::push_str(&mut out, " already installed");
                text::string_of(out.as_slice())
            },
            None => {
                if acc.errors > 0 {
                    let mut tail: Vec<char> = Vec::new();
                    if compiled > 0 {
                        text::push_str(&mut tail, ", ");
                        text::push_decimal(&mut tail, compiled);
                        text::push_str(&mut tail, " deps compiled");
                    }
                    assert(tail@ =~= model.compiled_part());
                    let mut head: Vec<char> = Vec::new();
                    text::push_str(&mut head, "cargo install: ");
                    text::push_decimal(&mut head, acc.errors);
                    text::push_str(&mut head, " error");
                    if acc.errors > 1 {
                        text::push_str(&mut head, "s");
                    }
                    if name.len() == 0 {
                        text::push_all(&mut head, tail.as_slice());
                    } else {
                        let none: Vec<char> = Vec::new();
                        let info = crate_info_of(
                            name.as_slice(),
                            version.as_slice(),
                            none.as_slice(),
                        );
                        text::push_str(&mut head, " (");
                        text::push_all(&mut head, info.as_slice());
                        text::push_all(&mut head, tail.as_slice());
                        text::push_str(&mut head, ")");
                    }
                    assert(head@ =~= model.failure_headline());
                    let mut layout: Vec<Vec<char>> = Vec::new();
                    push_line(&mut layout, head);
                    push_line(&mut layout, separator_line());
                    let blocks = acc.finish();
                    push_block_section(&mut layout, &blocks);
                    proof {
                        assert(chars::views(layout@) =~= model.failure_layout());
                    }
                    render(&layout)
                } else {
                    let package = text::chars_of("package");
                    let info = crate_info_of(
                        name.as_slice(),
                        version.as_slice(),
                        package.as_slice(),
                    );
                    let mut head: Vec<char> = Vec::new();
                    text::push_str(&mut head, "\u{2713} cargo install (");
                    text::push_all(&mut head, info.as_slice());
                    text::push_str(&mut head, ", ");
                    text::push_decimal(&mut head, compiled);
                    text::push_str(&mut head, " deps compiled)");
                    assert(head@ =~= model.success_headline());
                    let mut layout: Vec<Vec<char>> = Vec::new();
                    push_line(&mut layout, head);
                    let mut i: usize = 0;
                    while i < notes.len()
                        invariant
                            i <= notes.len(),
                            chars::views(notes@) == model.notes,
                            chars::views(layout@) == seq![model.success_headline()] + indented(
                                model.notes,
                            ).take(i as int),
                        decreases notes.len() - i,
                    {
                        let mut entry: Vec<char> = Vec::new();
                        text::push_str(&mut entry, "  ");
                        text::push_all(&mut entry, notes[i].as_slice());
                        proof {
                            assert(entry@ =~= indented(model.notes)[i as int]);
                            assert((seq![model.success_headline()] + indented(model.notes).take(
                                i as int,
                            )).push(entry@) =~= seq![model.success_headline()] + indented(
                                model.notes,
                            ).take(i + 1));
                        }
                        push_line(&mut layout, entry);
                        i += 1;
                    }
                    proof {
                        assert(indented(model.notes).take(notes.len() as int) =~= indented(
                            model.notes,
                        ));
                    }
                    let out = text::join_lines(&layout);
                    text::string_of(out.as_slice())
                }
            },
        }
    }
}

/// Summarises the output of `cargo install`.
pub fn filter_cargo_install(output: &str) -> (r: String)
    ensures
        r@ == install_summary(output@),
{
    let text = text::chars_of(output);
    let lines = text::split_lines(text.as_slice());
    let mut state = InstallScan::new();
    let mut i: usize = 0;
    assert(chars::views(lines@).take(0) =~= Seq::empty());
    while i < lines.len()
        invariant
            i <= lines.len(),
            state@ == scan(chars::views(lines@).take(i as int)),
        decreases lines.len() - i,
    {
        proof {
            let seen = chars::views(lines@).take(i as int);
            lemma_scan_counts(seen);
            let next = chars::views(lines@).take(i + 1);
            assert(next.drop_last() =~= seen);
            assert(next.last() == lines[i as int]@);
        }
        state = state.step(lines[i].as_slice());
        i += 1;
    }
    assert(chars::views(lines@).take(lines.len() as int) =~= chars::views(lines@));
    state.summary()
}

/// What the scan has counted never exceeds the number of lines it has seen.
/// Only errors are collected: there are as many blocks as errors, none of
/// them empty, and no warning is counted.
pub proof fn lemma_scan_counts(lines: Seq<Seq<char>>)
    ensures
        scan(lines).compiled + scan(lines).acc.errors <= lines.len(),
        scan(lines).acc.warnings == 0,
        scan(lines).acc.consistent(),
        scan(lines).acc.errors == scan(lines).acc.blocks().len(),
    decreases lines.len(),
{
    if lines.len() == 0 {
        lemma_empty_consistent();
    } else {
        lemma_scan_counts(lines.drop_last());
        let before = scan(lines.drop_last());
        let line = lines.last();
        match line_kind(line) {
            InstallLine::ErrorStart => {
                lemma_begin_consistent(before.acc, Severity::Error, line);
            },
            InstallLine::Body => {
                lemma_feed_consistent(before.acc, line);
            },
            _ => {},
        }
    }
}

/// What holds of the model of every scan of lines without line feed:
/// nothing it has gathered holds a line feed, and no line of a block is a
/// count summary.
pub open spec fn tidy(model: InstallModel) -> bool {
    &&& chars::no_line_feed(model.name)
    &&& chars::no_line_feed(model.version)
    &&& forall|i: int| 0 <= i < model.notes.len() ==> chars::no_line_feed(#[trigger] model.notes[i])
    &&& model.ignored matches Some(line) ==> chars::no_line_feed(line)
    &&& blocks_presentable(model.acc.blocks())
}

/// What follows a word on a line without line feed holds none.
pub proof fn lemma_rest_holds_no_line_feed(line: Seq<char>, word: Seq<char>)
    requires
        chars::no_line_feed(line),
    ensures
        chars::no_line_feed(after_word(line, word)),
{
    chars::lemma_trimmed_holds_no_line_feed(line);
    chars::lemma_tail_holds_no_line_feed(chars::trim_start(line), word.len() as int);
    chars::lemma_trimmed_holds_no_line_feed(chars::tail(chars::trim_start(line), word.len() as int));
}

/// A step over a line without line feed keeps the model tidy.
pub proof fn lemma_step_tidy(model: InstallModel, line: Seq<char>)
    requires
        tidy(model),
        chars::no_line_feed(line),
    ensures
        tidy(model.step(line)),
{
    let next = model.step(line);
    chars::lemma_trimmed_holds_no_line_feed(line);
    match line_kind(line) {
        InstallLine::Installing => {
            let rest = after_word(line, "Installing"@);
            lemma_rest_holds_no_line_feed(line, "Installing"@);
            if rest.len() > 0 {
                chars::lemma_find_char_bounds(rest, ' ', 0);
                let space = chars::find_char(rest, ' ', 0);
                if space < rest.len() {
                    chars::lemma_part_holds_no_line_feed(rest, 0, space);
                    chars::lemma_part_holds_no_line_feed(rest, space + 1, rest.len() as int);
                }
            }
        },
        InstallLine::Installed => {
            let rest = after_word(line, "Installed"@);
            lemma_rest_holds_no_line_feed(line, "Installed"@);
            if rest.len() > 0 {
                chars::lemma_find_whitespace_bounds(rest, 0);
                let first_end = chars::find_whitespace(rest, 0);
                chars::lemma_skip_whitespace_bounds(rest, first_end);
                let second = chars::skip_whitespace(rest, first_end);
                if second < rest.len() {
                    chars::lemma_find_whitespace_bounds(rest, second);
                    chars::lemma_part_holds_no_line_feed(rest, 0, first_end);
                    chars::lemma_part_holds_no_line_feed(
                        rest,
                        second,
                        chars::find_whitespace(rest, second),
                    );
                }
            }
        },
        InstallLine::Replace => {
            assert forall|i: int| 0 <= i < next.notes.len() implies chars::no_line_feed(
                #[trigger] next.notes[i],
            ) by {
                if i < model.notes.len() {
                    assert(next.notes[i] == model.notes[i]);
                }
            }
        },
        InstallLine::Advice => {
            assert forall|i: int| 0 <= i < next.notes.len() implies chars::no_line_feed(
                #[trigger] next.notes[i],
            ) by {
                if i < model.notes.len() {
                    assert(next.notes[i] == model.notes[i]);
                }
            }
        },
        InstallLine::ErrorStart => {
            lemma_marks_differ(line);
            lemma_begin_presentable(model.acc, Severity::Error, line);
        },
        InstallLine::Body => {
            lemma_feed_presentable(model.acc, line);
        },
        _ => {},
    }
}

/// The model of every scan of lines without line feed is tidy.
pub proof fn lemma_scan_tidy(lines: Seq<Seq<char>>)
    requires
        forall|i: int| 0 <= i < lines.len() ==> chars::no_line_feed(#[trigger] lines[i]),
    ensures
        tidy(scan(lines)),
    decreases lines.len(),
{
    if lines.len() > 0 {
        let head = lines.drop_last();
        assert forall|i: int| 0 <= i < head.len() implies chars::no_line_feed(#[trigger] head[i]) by {
            assert(head[i] == lines[i]);
        }
        lemma_scan_tidy(head);
        assert(chars::no_line_feed(lines[lines.len() - 1]));
        lemma_step_tidy(scan(head), lines.last());
    }
}

/// The name of a crate with its version holds no line feed when its parts
/// hold none.
pub proof fn lemma_crate_info_holds_no_line_feed(
    name: Seq<char>,
    version: Seq<char>,
    fallback: Seq<char>,
)
    requires
        chars::no_line_feed(name),
        chars::no_line_feed(version),
        chars::no_line_feed(fallback),
    ensures
        chars::no_line_feed(crate_info(name, version, fallback)),
{
    reveal_strlit(" ");
    chars::lemma_joint_holds_no_line_feed(name, " "@);
    chars::lemma_joint_holds_no_line_feed(name + " "@, version);
}

/// The headline of a failed installation is presentable and begins with a
/// letter.
pub proof fn lemma_failure_headline_presentable(model: InstallModel)
    requires
        tidy(model),
    ensures
        presentable(model.failure_headline()),
        model.failure_headline().len() > 0,
        model.failure_headline()[0] == 'c',
{
    reveal_strlit("cargo install: ");
    reveal_strlit(" error");
    reveal_strlit("s");
    reveal_strlit(", ");
    reveal_strlit(" deps compiled");
    reveal_strlit(" (");
    reveal_strlit(")");
    chars::lemma_decimal_is_digits(model.acc.errors);
    chars::lemma_decimal_is_digits(model.compiled);
    let plural = if model.acc.errors > 1 {
        "s"@
    } else {
        Seq::<char>::empty()
    };
    let a = "cargo install: "@ + chars::decimal(model.acc.errors);
    chars::lemma_joint_holds_no_line_feed("cargo install: "@, chars::decimal(model.acc.errors));
    chars::lemma_joint_holds_no_line_feed(a, " error"@);
    chars::lemma_joint_holds_no_line_feed(a + " error"@, plural);
    let count = a + " error"@ + plural;
    let part = model.compiled_part();
    assert(chars::no_line_feed(part)) by {
        if model.compiled > 0 {
            chars::lemma_joint_holds_no_line_feed(", "@, chars::decimal(model.compiled));
            chars::lemma_joint_holds_no_line_feed(
                ", "@ + chars::decimal(model.compiled),
                " deps compiled"@,
            );
        }
    }
    let info = crate_info(model.name, model.version, Seq::empty());
    lemma_crate_info_holds_no_line_feed(model.name, model.version, Seq::empty());
    chars::lemma_joint_holds_no_line_feed(count, part);
    chars::lemma_joint_holds_no_line_feed(count, " ("@);
    chars::lemma_joint_holds_no_line_feed(count + " ("@, info);
    chars::lemma_joint_holds_no_line_feed(count + " ("@ + info, part);
    chars::lemma_joint_holds_no_line_feed(count + " ("@ + info + part, ")"@);
    assert(count[0] == 'c');
    assert(model.failure_headline()[0] == 'c');
    lemma_unmarked_is_no_summary(model.failure_headline());
}

/// The lines of the summary of a successful installation are plain.
pub proof fn lemma_success_layout_plain(model: InstallModel)
    requires
        tidy(model),
    ensures
        layout_plain(model.success_layout()),
{
    reveal_strlit("\u{2713} cargo install (");
    reveal_strlit("package");
    reveal_strlit(", ");
    reveal_strlit(" deps compiled)");
    reveal_strlit("  ");
    chars::lemma_decimal_is_digits(model.compiled);
    let info = crate_info(model.name, model.version, "package"@);
    lemma_crate_info_holds_no_line_feed(model.name, model.version, "package"@);
    let a = "\u{2713} cargo install ("@ + info;
    chars::lemma_joint_holds_no_line_feed("\u{2713} cargo install ("@, info);
    chars::lemma_joint_holds_no_line_feed(a, ", "@);
    chars::lemma_joint_holds_no_line_feed(a + ", "@, chars::decimal(model.compiled));
    chars::lemma_joint_holds_no_line_feed(
        a + ", "@ + chars::decimal(model.compiled),
        " deps compiled)"@,
    );
    let head = model.success_headline();
    assert(head[0] == '\u{2713}');
    let layout = model.success_layout();
    assert forall|k: int| 0 <= k < layout.len() implies plain(#[trigger] layout[k]) by {
        if k > 0 {
            let note = model.notes[k - 1];
            assert(layout[k] == "  "@ + note);
            assert(chars::no_line_feed(note));
            chars::lemma_joint_holds_no_line_feed("  "@, note);
            assert(layout[k][0] == ' ');
        } else {
            assert(layout[k] == head);
        }
    }
}

/// The line that reports what is already installed is plain.
pub proof fn lemma_already_installed_plain(line: Seq<char>)
    requires
        chars::no_line_feed(line),
    ensures
        plain("\u{2713} cargo install: "@ + quoted(line) + " already installed"@),
{
    reveal_strlit("\u{2713} cargo install: ");
    reveal_strlit(" already installed");
    chars::lemma_find_char_bounds(line, '`', 0);
    let open = chars::find_char(line, '`', 0);
    if open < line.len() {
        chars::lemma_find_char_bounds(line, '`', open + 1);
        chars::lemma_part_holds_no_line_feed(line, open + 1, chars::find_char(line, '`', open + 1));
    }
    let shown = "\u{2713} cargo install: "@ + quoted(line) + " already installed"@;
    chars::lemma_joint_holds_no_line_feed("\u{2713} cargo install: "@, quoted(line));
    chars::lemma_joint_holds_no_line_feed(
        "\u{2713} cargo install: "@ + quoted(line),
        " already installed"@,
    );
    assert(shown[0] == '\u{2713}');
}

/// No count summary is a line of an install summary: neither "aborting
/// due to", nor "could not compile", nor "generated N warnings" is shown
/// as a line of its own, whatever the output was.
pub proof fn lemma_no_count_summary_shown(text: Seq<char>)
    ensures
        forall|i: int|
            0 <= i < chars::lines(install_summary(text)).len() ==> !is_count_summary(
                #[trigger] chars::lines(install_summary(text))[i],
            ),
{
    let lines = chars::lines(text);
    chars::lemma_lines_hold_no_line_feed(text, 0);
    lemma_scan_tidy(lines);
    let model = scan(lines);
    match model.ignored {
        Some(line) => {
            lemma_already_installed_plain(line);
            let shown = "\u{2713} cargo install: "@ + quoted(line) + " already installed"@;
            lemma_unmarked_is_no_summary(shown);
            lemma_line_shows_no_summary(shown);
        },
        None => {
            if model.acc.errors > 0 {
                lemma_failure_headline_presentable(model);
                lemma_separator_presentable();
                lemma_block_section_presentable(model.acc.blocks());
                let top = seq![model.failure_headline(), separator()];
                assert(layout_presentable(top)) by {
                    assert forall|k: int| 0 <= k < top.len() implies presentable(
                        #[trigger] top[k],
                    ) by {
                        if k > 0 {
                            assert(top[k] == separator());
                        }
                    }
                }
                lemma_layouts_presentable(top, block_section(model.acc.blocks()));
                let layout = model.failure_layout();
                assert(layout[0] == model.failure_headline());
                assert(!chars::is_whitespace('c'));
                lemma_rendered_shows_no_summary(layout);
            } else {
                lemma_success_layout_plain(model);
                lemma_plain_is_presentable(model.success_layout());
                lemma_joined_shows_no_summary(model.success_layout());
            }
        },
    }
}

/// The scan makes blocks of which only the first line carries the mark of
/// an error.
pub proof fn lemma_scan_headed(lines: Seq<Seq<char>>)
    ensures
        blocks_headed(scan(lines).acc.blocks(), Severity::Error),
    decreases lines.len(),
{
    if lines.len() > 0 {
        lemma_scan_headed(lines.drop_last());
        let before = scan(lines.drop_last());
        let line = lines.last();
        match line_kind(line) {
            InstallLine::ErrorStart => {
                lemma_begin_headed(before.acc, Severity::Error, line, Severity::Error);
            },
            InstallLine::Body => {
                lemma_feed_headed(before.acc, line, Severity::Error);
            },
            _ => {},
        }
    }
}

/// The scan counts no more errors than there are lines that carry the mark
/// of one.
pub proof fn lemma_scan_counts_marks(lines: Seq<Seq<char>>)
    ensures
        scan(lines).acc.errors <= marks(lines, Severity::Error),
    decreases lines.len(),
{
    if lines.len() > 0 {
        lemma_scan_counts_marks(lines.drop_last());
    }
}

/// A summary read as output again shows no error that the output did not
/// hold: the summary of an install summary counts no more errors than the
/// summary itself.
pub proof fn lemma_summary_invents_nothing(text: Seq<char>)
    ensures
        scan(chars::lines(install_summary(text))).acc.errors <= scan(
            chars::lines(text),
        ).acc.errors,
{
    let lines = chars::lines(text);
    chars::lemma_lines_hold_no_line_feed(text, 0);
    lemma_scan_tidy(lines);
    lemma_scan_headed(lines);
    lemma_scan_counts(lines);
    let model = scan(lines);
    let shown_lines = chars::lines(install_summary(text));
    lemma_scan_counts_marks(shown_lines);
    let mark = Severity::Error;
    match model.ignored {
        Some(line) => {
            lemma_already_installed_plain(line);
            let shown = "\u{2713} cargo install: "@ + quoted(line) + " already installed"@;
            let layout = seq![shown];
            assert(layout[0] == shown);
            assert(chars::join_lines(layout) == shown);
            lemma_joined_marks(layout, mark);
        },
        None => {
            if model.acc.errors > 0 {
                lemma_failure_headline_presentable(model);
                lemma_separator_presentable();
                lemma_block_section_presentable(model.acc.blocks());
                let top = seq![model.failure_headline(), separator()];
                let section = block_section(model.acc.blocks());
                let layout = model.failure_layout();
                assert forall|k: int| 0 <= k < layout.len() implies chars::no_line_feed(
                    #[trigger] layout[k],
                ) by {
                    if k >= 2 {
                        assert(layout[k] == section[k - 2]);
                        assert(presentable(section[k - 2]));
                    } else if k == 1 {
                        assert(layout[k] == separator());
                    }
                }
                assert(layout[0] == model.failure_headline());
                assert(!chars::is_whitespace('c'));
                lemma_rendered_marks(layout, mark);
                assert forall|k: int| 0 <= k < top.len() implies !marked(#[trigger] top[k], mark) by {
                    if k == 0 {
                        lemma_unmarked_is_no_summary(model.failure_headline());
                    } else {
                        assert(top[k] == separator());
                        lemma_unmarked_is_no_summary(separator());
                    }
                }
                lemma_no_marks(top, mark);
                lemma_marks_add(top, section, mark);
                lemma_block_section_marks(model.acc.blocks(), mark);
            } else {
                lemma_success_layout_plain(model);
                lemma_joined_marks(model.success_layout(), mark);
            }
        },
    }
}

/// The joined lines of a plain layout hold no mark.
pub proof fn lemma_joined_marks(layout: Seq<Seq<char>>, mark: Severity)
    requires
        layout_plain(layout),
    ensures
        marks(chars::lines(chars::join_lines(layout)), mark) == 0,
{
    assert forall|k: int| 0 <= k < layout.len() implies chars::no_line_feed(
        #[trigger] layout[k],
    ) && !marked(layout[k], mark) by {
        assert(plain(layout[k]));
        lemma_unmarked_is_no_summary(layout[k]);
    }
    lemma_no_marks(layout, mark);
    if layout.len() > 0 {
        chars::lemma_join_is_beginning(layout);
        lemma_beginning_marks(layout, chars::unlines(layout).len() - 1, mark);
    } else {
        assert(chars::lines(chars::join_lines(layout)) =~= Seq::empty());
    }
}

} // verus!
