//! The summary of `cargo clippy`: the diagnostics grouped by lint rule, the
//! rules that fire most often first, with the places where they fired.

use crate::blocks::Severity;
use crate::chars;
use crate::classify::{
    begins_with, begins_with_word, is_count_summary, is_error_start, is_warning_start,
    lemma_unmarked_is_no_summary, mentions_abort, mentions_generated, plain, speaks_of_abort,
    speaks_of_generated, starts_error, starts_warning, unmarked,
};
use crate::render::{
    begins_visibly, hidden, layout_plain, lemma_beginning_is_unmarked, lemma_layouts_plain,
    lemma_overflow_note_plain, lemma_rendered_is_unmarked, lemma_separator_plain, overflow_note,
    push_line, push_lines, push_overflow_note, render, rendered, separator, separator_line, shown,
};
use crate::text;
use vstd::prelude::*;
use vstd::slice::slice_subrange;

verus! {

/// How many rules a summary shows.
pub const MAX_RULES: usize = 15;

/// How many places a summary shows for one rule.
pub const MAX_LOCATIONS: usize = 3;

/// What a line of lint output is.
#[derive(Clone, Copy, Debug)]
pub enum LintLine {
    /// Progress and chatter.
    Noise,
    /// A count summary; it is dropped.
    Summary,
    /// The header of a diagnostic.
    Start(Severity),
    /// A line that points to a place in the source.
    Location,
    /// Anything else; the lint summary keeps none of it.
    Other,
}

/// Whether the line reports progress that a lint summary never shows.
pub open spec fn is_progress(line: Seq<char>) -> bool {
    ||| begins_with(line, "Compiling"@)
    ||| begins_with(line, "Checking"@)
    ||| begins_with(line, "Downloading"@)
    ||| begins_with(line, "Downloaded"@)
    ||| begins_with(line, "Finished"@)
}

/// What a line of lint output is.
pub open spec fn line_kind(line: Seq<char>) -> LintLine {
    if is_progress(line) {
        LintLine::Noise
    } else if is_warning_start(line) || is_error_start(line) {
        if mentions_generated(line) || mentions_abort(line) {
            LintLine::Summary
        } else if is_error_start(line) {
            LintLine::Start(Severity::Error)
        } else {
            LintLine::Start(Severity::Warning)
        }
    } else if begins_with(line, "--> "@) {
        LintLine::Location
    } else {
        LintLine::Other
    }
}

/// The message of a diagnostic header: what follows `error: ` or
/// `warning: `, or the whole line when it begins otherwise.
pub open spec fn message_of(line: Seq<char>) -> Seq<char> {
    let prefix = if is_error_start(line) {
        "error: "@
    } else {
        "warning: "@
    };
    if chars::starts_with(line, prefix) {
        chars::tail(line, prefix.len() as int)
    } else {
        line
    }
}

/// The rule that a diagnostic header names: what stands between the last
/// closing bracket and the last opening bracket before it, or the message
/// when there is no such pair.
pub open spec fn rule_of(line: Seq<char>) -> Seq<char> {
    let close = chars::rfind_char(line, ']', line.len() as int);
    let open = chars::rfind_char(line, '[', close);
    if close >= 0 && open >= 0 {
        line.subrange(open + 1, close)
    } else {
        message_of(line)
    }
}

/// The first index at or after `from` at which `t` does not go on with an
/// arrow.
pub open spec fn skip_arrows(t: Seq<char>, from: int) -> int
    decreases t.len() - from,
    via skip_arrows_decreases
{
    if chars::occurs_at(t, "--> "@, from) {
        skip_arrows(t, from + "--> "@.len())
    } else {
        from
    }
}

#[via_fn]
proof fn skip_arrows_decreases(t: Seq<char>, from: int) {
    reveal_strlit("--> ");
}

/// The place that a location line points to: the line without its leading
/// whitespace and without the arrows it begins with.
pub open spec fn location_of(line: Seq<char>) -> Seq<char> {
    let t = chars::trim_start(line);
    chars::tail(t, skip_arrows(t, 0))
}

/// One rule with the places where it fired.
pub struct RuleModel {
    /// The name of the rule.
    pub rule: Seq<char>,
    /// How many rules were seen before this one.
    pub first_seen: nat,
    /// The places, in the order in which they came.
    pub locations: Seq<Seq<char>>,
}

/// The index of the group of `rule` at or after `from`, or the number of
/// groups when there is none.
pub open spec fn position(groups: Seq<RuleModel>, rule: Seq<char>, from: int) -> int
    decreases groups.len() - from,
{
    if 0 <= from < groups.len() && groups[from].rule != rule {
        position(groups, rule, from + 1)
    } else {
        from
    }
}

/// The groups after `rule` fired at `place`: the group of the rule gains
/// the place, and a rule seen for the first time gets a group at the end.
pub open spec fn record(groups: Seq<RuleModel>, rule: Seq<char>, place: Seq<char>) -> Seq<
    RuleModel,
> {
    let at = position(groups, rule, 0);
    if at < groups.len() {
        groups.update(
            at,
            RuleModel { locations: groups[at].locations.push(place), ..groups[at] },
        )
    } else {
        groups.push(RuleModel { rule, first_seen: groups.len(), locations: seq![place] })
    }
}

/// `sorted` with `g` put behind every group that fired at least as often.
pub open spec fn insert_ranked(sorted: Seq<RuleModel>, g: RuleModel) -> Seq<RuleModel>
    decreases sorted.len(),
{
    if sorted.len() == 0 {
        seq![g]
    } else if sorted.last().locations.len() >= g.locations.len() {
        sorted.push(g)
    } else {
        insert_ranked(sorted.drop_last(), g).push(sorted.last())
    }
}

/// The groups in the order of the summary: the rule that fired most often
/// first, and of rules that fired equally often the one seen first.
pub open spec fn ranked(groups: Seq<RuleModel>) -> Seq<RuleModel>
    decreases groups.len(),
{
    if groups.len() == 0 {
        Seq::empty()
    } else {
        insert_ranked(ranked(groups.drop_last()), groups.last())
    }
}

/// Whether `a` stands before `b` in the summary: it fired more often, or
/// equally often and was seen first.
pub open spec fn outranks(a: RuleModel, b: RuleModel) -> bool {
    a.locations.len() > b.locations.len() || (a.locations.len() == b.locations.len()
        && a.first_seen < b.first_seen)
}

/// The lines that show one rule: its name and count, its first
/// `MAX_LOCATIONS` places, and a note on the rest.
pub open spec fn rule_entry(g: RuleModel) -> Seq<Seq<char>> {
    let n = g.locations.len();
    seq!["  "@ + g.rule + " ("@ + chars::decimal(n) + "x)"@] + Seq::new(
        shown(n, MAX_LOCATIONS as nat),
        |i: int| "    "@ + g.locations[i],
    ) + if n > MAX_LOCATIONS {
        seq!["    ... +"@ + chars::decimal((n - MAX_LOCATIONS) as nat) + " more"@]
    } else {
        Seq::empty()
    }
}

/// The lines that show the first `k` rules.
pub open spec fn rule_entries(rules: Seq<RuleModel>, k: nat) -> Seq<Seq<char>>
    decreases k,
{
    if k == 0 {
        Seq::empty()
    } else {
        rule_entries(rules, (k - 1) as nat) + rule_entry(rules[k - 1])
    }
}

/// What the scan of a lint run has gathered.
pub struct LintModel {
    /// How many errors began.
    pub errors: nat,
    /// How many warnings began.
    pub warnings: nat,
    /// The rule of the diagnostic being read, empty when there is none.
    pub current_rule: Seq<char>,
    /// The rules that fired somewhere, in the order in which they were
    /// first seen.
    pub groups: Seq<RuleModel>,
}

impl LintModel {
    /// Nothing seen yet.
    pub open spec fn empty() -> LintModel {
        LintModel { errors: 0, warnings: 0, current_rule: Seq::empty(), groups: Seq::empty() }
    }

    /// The model after one more line.
    pub open spec fn step(self, line: Seq<char>) -> LintModel {
        match line_kind(line) {
            LintLine::Noise | LintLine::Summary | LintLine::Other => self,
            LintLine::Start(severity) => LintModel {
                errors: if severity is Error {
                    self.errors + 1
                } else {
                    self.errors
                },
                warnings: if severity is Warning {
                    self.warnings + 1
                } else {
                    self.warnings
                },
                current_rule: rule_of(line),
                ..self
            },
            LintLine::Location => if self.current_rule.len() > 0 {
                LintModel {
                    groups: record(self.groups, self.current_rule, location_of(line)),
                    ..self
                }
            } else {
                self
            },
        }
    }

    /// The headline of a run with diagnostics.
    pub open spec fn headline(self) -> Seq<char> {
        "cargo clippy: "@ + chars::decimal(self.errors) + " errors, "@ + chars::decimal(
            self.warnings,
        ) + " warnings"@
    }

    /// The lines of the summary of a run with diagnostics.
    pub open spec fn layout(self) -> Seq<Seq<char>> {
        let rules = ranked(self.groups);
        seq![self.headline(), separator()] + rule_entries(
            rules,
            shown(rules.len(), MAX_RULES as nat),
        ) + overflow_note(hidden(rules.len(), MAX_RULES as nat), "rules"@)
    }

    /// The summary: one line for a run without diagnostics, else the
    /// headline, the separator and the rules.
    pub open spec fn summary(self) -> Seq<char> {
        if self.errors == 0 && self.warnings == 0 {
            clean_line()
        } else {
            rendered(self.layout())
        }
    }
}

/// The model after all of `lines`.
pub open spec fn scan(lines: Seq<Seq<char>>) -> LintModel
    decreases lines.len(),
{
    if lines.len() == 0 {
        LintModel::empty()
    } else {
        scan(lines.drop_last()).step(lines.last())
    }
}

/// The summary of the output `text` of `cargo clippy`.
pub open spec fn clippy_summary(text: Seq<char>) -> Seq<char> {
    scan(chars::lines(text)).summary()
}

/// One rule as the scan holds it.
pub struct RuleGroup {
    pub rule: Vec<char>,
    pub first_seen: usize,
    pub locations: Vec<Vec<char>>,
}

impl View for RuleGroup {
    type V = RuleModel;

    open spec fn view(&self) -> RuleModel {
        RuleModel {
            rule: self.rule@,
            first_seen: self.first_seen as nat,
            locations: chars::views(self.locations@),
        }
    }
}

/// The rules that a vector of groups holds.
pub open spec fn group_views(gs: Seq<RuleGroup>) -> Seq<RuleModel> {
    Seq::new(gs.len(), |i: int| gs[i]@)
}

/// The scan as it runs.
pub struct LintScan {
    pub errors: usize,
    pub warnings: usize,
    pub current_rule: Vec<char>,
    pub groups: Vec<RuleGroup>,
}

impl View for LintScan {
    type V = LintModel;

    open spec fn view(&self) -> LintModel {
        LintModel {
            errors: self.errors as nat,
            warnings: self.warnings as nat,
            current_rule: self.current_rule@,
            groups: group_views(self.groups@),
        }
    }
}

/// Classifies a line of lint output.
pub fn classify(line: &[char]) -> (k: LintLine)
    ensures
        k == line_kind(line@),
{
    if begins_with_word(line, "Compiling") || begins_with_word(line, "Checking")
        || begins_with_word(line, "Downloading") || begins_with_word(line, "Downloaded")
        || begins_with_word(line, "Finished") {
        LintLine::Noise
    } else if starts_warning(line) || starts_error(line) {
        if speaks_of_generated(line) || speaks_of_abort(line) {
            LintLine::Summary
        } else if starts_error(line) {
            LintLine::Start(Severity::Error)
        } else {
            LintLine::Start(Severity::Warning)
        }
    } else if begins_with_word(line, "--> ") {
        LintLine::Location
    } else {
        LintLine::Other
    }
}

/// The message of a diagnostic header.
pub fn message<'a>(line: &'a [char]) -> (r: &'a [char])
    ensures
        r@ == message_of(line@),
{
    let prefix = if starts_error(line) {
        "error: "
    } else {
        "warning: "
    };
    if text::starts_with(line, prefix) {
        let p = text::chars_of(prefix);
        text::tail(line, p.len())
    } else {
        line
    }
}

/// The rule that a diagnostic header names.
pub fn rule_name<'a>(line: &'a [char]) -> (r: &'a [char])
    ensures
        r@ == rule_of(line@),
{
    match text::rfind_char(line, ']', line.len()) {
        Some(close) => {
            match text::rfind_char(line, '[', close) {
                Some(open) => slice_subrange(line, open + 1, close),
                None => message(line),
            }
        },
        None => {
            proof {
                assert(chars::rfind_char(line@, '[', -1) == -1);
            }
            message(line)
        },
    }
}

/// The place that a location line points to.
pub fn location<'a>(line: &'a [char]) -> (r: &'a [char])
    ensures
        r@ == location_of(line@),
{
    let t = text::trim_start(line);
    let arrow = text::chars_of("--> ");
    let mut from: usize = 0;
    proof {
        reveal_strlit("--> ");
    }
    loop
        invariant_except_break
            from <= t.len(),
            arrow@ == "--> "@,
            arrow@.len() == 4,
            skip_arrows(t@, 0) == skip_arrows(t@, from as int),
        ensures
            from <= t.len(),
            skip_arrows(t@, 0) == from,
        decreases t.len() - from,
    {
        if !text::occurs_at(t, arrow.as_slice(), from) {
            break ;
        }
        from += 4;
    }
    text::tail(t, from)
}

/// A copy of a group.
pub fn copy_group(g: &RuleGroup) -> (r: RuleGroup)
    ensures
        r@ == g@,
{
    let mut locations: Vec<Vec<char>> = Vec::new();
    assert(chars::views(locations@) =~= Seq::empty());
    push_lines(&mut locations, &g.locations);
    assert(chars::views(locations@) =~= chars::views(g.locations@));
    RuleGroup { rule: text::to_vec(g.rule.as_slice()), first_seen: g.first_seen, locations }
}

/// Records that `rule` fired at `place`.
pub fn record_place(groups: &mut Vec<RuleGroup>, rule: &[char], place: &[char])
    ensures
        group_views(final(groups)@) == record(group_views(old(groups)@), rule@, place@),
{
    let ghost before = group_views(groups@);
    let mut at: usize = 0;
    while at < groups.len() && !text::same(groups[at].rule.as_slice(), rule)
        invariant
            at <= groups.len(),
            groups@ == old(groups)@,
            before == group_views(groups@),
            position(before, rule@, 0) == position(before, rule@, at as int),
        decreases groups.len() - at,
    {
        at += 1;
    }
    if at < groups.len() {
        let RuleGroup { rule: name, first_seen, locations } = groups.remove(at);
        let mut locations = locations;
        push_line(&mut locations, text::to_vec(place));
        let grown = RuleGroup { rule: name, first_seen, locations };
        groups.insert(at, grown);
        proof {
            assert(group_views(groups@) =~= record(before, rule@, place@));
        }
    } else {
        let mut locations: Vec<Vec<char>> = Vec::new();
        assert(chars::views(locations@) =~= Seq::empty());
        push_line(&mut locations, text::to_vec(place));
        let first_seen = groups.len();
        let fresh = RuleGroup { rule: text::to_vec(rule), first_seen, locations };
        groups.push(fresh);
        proof {
            assert(fresh@.locations =~= seq![place@]);
            assert(group_views(groups@) =~= record(before, rule@, place@));
        }
    }
}

/// Putting `g` at index `at` ranks it, when every group from `at` on fired
/// less often than `g` and the group before `at` did not.
pub proof fn lemma_insert_ranked_at(sorted: Seq<RuleModel>, g: RuleModel, at: int)
    requires
        0 <= at <= sorted.len(),
        forall|k: int| at <= k < sorted.len() ==> (#[trigger] sorted[k]).locations.len()
            < g.locations.len(),
        at > 0 ==> sorted[at - 1].locations.len() >= g.locations.len(),
    ensures
        insert_ranked(sorted, g) == sorted.insert(at, g),
    decreases sorted.len(),
{
    if sorted.len() == 0 {
        assert(seq![g] =~= sorted.insert(at, g));
    } else if sorted.last().locations.len() >= g.locations.len() {
        if at < sorted.len() {
            assert(sorted[sorted.len() - 1].locations.len() < g.locations.len());
        }
        assert(sorted.push(g) =~= sorted.insert(at, g));
    } else {
        let head = sorted.drop_last();
        assert forall|k: int| at <= k < head.len() implies (#[trigger] head[k]).locations.len()
            < g.locations.len() by {
            assert(head[k] == sorted[k]);
        }
        if at > 0 {
            assert(head[at - 1] == sorted[at - 1]);
        }
        lemma_insert_ranked_at(head, g, at);
        assert(head.insert(at, g).push(sorted.last()) =~= sorted.insert(at, g));
    }
}

/// The groups in the order of the summary.
pub fn rank(groups: &Vec<RuleGroup>) -> (r: Vec<RuleGroup>)
    ensures
        group_views(r@) == ranked(group_views(groups@)),
{
    let ghost all = group_views(groups@);
    let mut r: Vec<RuleGroup> = Vec::new();
    let mut i: usize = 0;
    assert(all.take(0) =~= Seq::empty());
    assert(group_views(r@) =~= Seq::empty());
    while i < groups.len()
        invariant
            i <= groups.len(),
            all == group_views(groups@),
            group_views(r@) == ranked(all.take(i as int)),
        decreases groups.len() - i,
    {
        let g = copy_group(&groups[i]);
        let count = g.locations.len();
        let ghost sorted = group_views(r@);
        let mut at: usize = r.len();
        while at > 0 && r[at - 1].locations.len() < count
            invariant
                at <= r.len(),
                sorted == group_views(r@),
                count == g@.locations.len(),
                forall|k: int| at <= k < sorted.len() ==> (#[trigger] sorted[k]).locations.len()
                    < count,
            decreases at,
        {
            at -= 1;
        }
        proof {
            lemma_insert_ranked_at(sorted, g@, at as int);
            let next = all.take(i + 1);
            assert(next.drop_last() =~= all.take(i as int));
            assert(next.last() == g@);
            assert(group_views(r@.insert(at as int, g)) =~= sorted.insert(at as int, g@));
        }
        r.insert(at, g);
        i += 1;
    }
    assert(all.take(groups.len() as int) =~= all);
    r
}

/// Appends the lines that show one rule.
pub fn push_rule_entry(layout: &mut Vec<Vec<char>>, g: &RuleGroup)
    ensures
        chars::views(final(layout)@) == chars::views(old(layout)@) + rule_entry(g@),
{
    let ghost before = chars::views(layout@);
    let n = g.locations.len();
    let mut head: Vec<char> = Vec::new();
    text::push_str(&mut head, "  ");
    text::push_all(&mut head, g.rule.as_slice());
    text::push_str(&mut head, " (");
    text::push_decimal(&mut head, n);
    text::push_str(&mut head, "x)");
    let ghost first = "  "@ + g@.rule + " ("@ + chars::decimal(n as nat) + "x)"@;
    assert(head@ =~= first);
    push_line(layout, head);
    let limit = if n > MAX_LOCATIONS {
        MAX_LOCATIONS
    } else {
        n
    };
    let ghost places = Seq::new(limit as nat, |i: int| "    "@ + g@.locations[i]);
    let mut i: usize = 0;
    assert(chars::views(layout@) =~= before + (seq![first] + places.take(0)));
    while i < limit
        invariant
            i <= limit <= n,
            n == g.locations.len(),
            places == Seq::new(limit as nat, |i: int| "    "@ + g@.locations[i]),
            chars::views(layout@) == before + (seq![first] + places.take(i as int)),
        decreases limit - i,
    {
        let mut entry: Vec<char> = Vec::new();
        text::push_str(&mut entry, "    ");
        text::push_all(&mut entry, g.locations[i].as_slice());
        proof {
            assert(entry@ =~= places[i as int]);
            assert((before + (seq![first] + places.take(i as int))).push(entry@) =~= before + (
            seq![first] + places.take(i + 1)));
        }
        push_line(layout, entry);
        i += 1;
    }
    assert(places.take(limit as int) =~= places);
    if n > MAX_LOCATIONS {
        let mut note: Vec<char> = Vec::new();
        text::push_str(&mut note, "    ... +");
        text::push_decimal(&mut note, n - MAX_LOCATIONS);
        text::push_str(&mut note, " more");
        proof {
            assert(note@ =~= "    ... +"@ + chars::decimal((n - MAX_LOCATIONS) as nat) + " more"@);
            assert((before + (seq![first] + places)).push(note@) =~= before + rule_entry(g@));
        }
        push_line(layout, note);
    } else {
        assert(before + (seq![first] + places) =~= before + rule_entry(g@));
    }
}

impl LintScan {
    /// A scan that has seen nothing.
    pub fn new() -> (r: LintScan)
        ensures
            r@ == LintModel::empty(),
    {
        let r = LintScan { errors: 0, warnings: 0, current_rule: Vec::new(), groups: Vec::new() };
        assert(r@.groups =~= Seq::empty());
        r
    }

    /// Takes one more line.
    pub fn step(self, line: &[char]) -> (r: LintScan)
        requires
            self@.errors + self@.warnings < usize::MAX,
        ensures
            r@ == self@.step(line@),
    {
        let LintScan { errors, warnings, current_rule, groups } = self;
        match classify(line) {
            LintLine::Noise => LintScan { errors, warnings, current_rule, groups },
            LintLine::Summary => LintScan { errors, warnings, current_rule, groups },
            LintLine::Other => LintScan { errors, warnings, current_rule, groups },
            LintLine::Start(severity) => {
                let (errors, warnings) = match severity {
                    Severity::Error => (errors + 1, warnings),
                    Severity::Warning => (errors, warnings + 1),
                };
                LintScan { errors, warnings, current_rule: text::to_vec(rule_name(line)), groups }
            },
            LintLine::Location => {
                let mut groups = groups;
                if current_rule.len() > 0 {
                    record_place(&mut groups, current_rule.as_slice(), location(line));
                }
                LintScan { errors, warnings, current_rule, groups }
            },
        }
    }

    /// Renders the summary.
    pub fn summary(self) -> (r: String)
        ensures
            r@ == self@.summary(),
    {
        let ghost model = self@;
        let LintScan { errors, warnings, current_rule, groups } = self;
        if errors == 0 && warnings == 0 {
            text::string_of(text::chars_of("\u{2713} cargo clippy: No issues found").as_slice())
        } else {
            let mut head: Vec<char> = Vec::new();
            text::push_str(&mut head, "cargo clippy: ");
            text::push_decimal(&mut head, errors);
            text::push_str(&mut head, " errors, ");
            text::push_decimal(&mut head, warnings);
            text::push_str(&mut head, " warnings");
            assert(head@ =~= model.headline());
            let mut layout: Vec<Vec<char>> = Vec::new();
            push_line(&mut layout, head);
            push_line(&mut layout, separator_line());
            let rules = rank(&groups);
            let ghost rv = group_views(rules@);
            let ghost top = seq![model.headline(), separator()];
            let total = rules.len();
            let limit = if total > MAX_RULES {
                MAX_RULES
            } else {
                total
            };
            let mut i: usize = 0;
            assert(chars::views(layout@) =~= top + rule_entries(rv, 0));
            while i < limit
                invariant
                    i <= limit <= total,
                    total == rules.len(),
                    rv == group_views(rules@),
                    chars::views(layout@) == top + rule_entries(rv, i as nat),
                decreases limit - i,
            {
                let ghost before = chars::views(layout@);
                push_rule_entry(&mut layout, &rules[i]);
                proof {
                    assert(rv[i as int] == rules[i as int]@);
                    assert(before + rule_entry(rv[i as int]) =~= top + rule_entries(
                        rv,
                        (i + 1) as nat,
                    ));
                }
                i += 1;
            }
            push_overflow_note(&mut layout, total - limit, "rules");
            proof {
                assert(chars::views(layout@) =~= model.layout());
            }
            render(&layout)
        }
    }
}

/// Summarises the output of `cargo clippy`.
pub fn filter_cargo_clippy(output: &str) -> (r: String)
    ensures
        r@ == clippy_summary(output@),
{
    let text = text::chars_of(output);
    let lines = text::split_lines(text.as_slice());
    let mut state = LintScan::new();
    let mut i: usize = 0;
    assert(chars::views(lines@).take(0) =~= Seq::empty());
    while i < lines.len()
        invariant
            i <= lines.len(),
            state@ == scan(chars::views(lines@).take(i as int)),
        decreases lines.len() - i,
    {
        proof {
            let seen = chars::views(lines@).take(i as int);
            lemma_scan_counts(seen);
            let next = chars::views(lines@).take(i + 1);
            assert(next.drop_last() =~= seen);
            assert(next.last() == lines[i as int]@);
        }
        state = state.step(lines[i].as_slice());
        i += 1;
    }
    assert(chars::views(lines@).take(lines.len() as int) =~= chars::views(lines@));
    state.summary()
}

/// How many of `lines` are the header of a diagnostic of the severity.
pub open spec fn starts(lines: Seq<Seq<char>>, severity: Severity) -> nat
    decreases lines.len(),
{
    if lines.len() == 0 {
        0
    } else {
        starts(lines.drop_last(), severity) + if line_kind(lines.last()) == LintLine::Start(
            severity,
        ) {
            1nat
        } else {
            0nat
        }
    }
}

/// The counts of the scan are the numbers of diagnostic headers among the
/// lines, severity by severity, so that each line counts at most once.
pub proof fn lemma_scan_counts(lines: Seq<Seq<char>>)
    ensures
        scan(lines).errors == starts(lines, Severity::Error),
        scan(lines).warnings == starts(lines, Severity::Warning),
        scan(lines).errors + scan(lines).warnings <= lines.len(),
    decreases lines.len(),
{
    if lines.len() > 0 {
        lemma_scan_counts(lines.drop_last());
    }
}

/// What holds of the groups of every scan: each group holds the number of
/// groups before it as the time at which it was first seen, no group is
/// without a place, and no two groups have the same rule.
pub open spec fn well_formed(groups: Seq<RuleModel>) -> bool {
    &&& forall|i: int|
        0 <= i < groups.len() ==> (#[trigger] groups[i]).first_seen == i && groups[i].locations.len()
            > 0
    &&& forall|i: int, j: int|
        0 <= i < j < groups.len() ==> (#[trigger] groups[i]).rule != (#[trigger] groups[j]).rule
}

/// Whether the groups stand in the order of the summary: each group
/// outranks every group behind it.
pub open spec fn in_rank_order(rules: Seq<RuleModel>) -> bool {
    forall|i: int, j: int|
        0 <= i < j < rules.len() ==> outranks(#[trigger] rules[i], #[trigger] rules[j])
}

/// `position` stays between `from` and the number of groups, finds the
/// rule where it stops before the end, and passes no group of the rule.
pub proof fn lemma_position_bounds(groups: Seq<RuleModel>, rule: Seq<char>, from: int)
    requires
        0 <= from <= groups.len(),
    ensures
        from <= position(groups, rule, from) <= groups.len(),
        position(groups, rule, from) < groups.len() ==> groups[position(groups, rule, from)].rule
            == rule,
        forall|k: int| from <= k < position(groups, rule, from) ==> (#[trigger] groups[k]).rule != rule,
    decreases groups.len() - from,
{
    if from < groups.len() && groups[from].rule != rule {
        lemma_position_bounds(groups, rule, from + 1);
    }
}

/// Recording a place keeps the groups well formed.
pub proof fn lemma_record_well_formed(groups: Seq<RuleModel>, rule: Seq<char>, place: Seq<char>)
    requires
        well_formed(groups),
    ensures
        well_formed(record(groups, rule, place)),
{
    lemma_position_bounds(groups, rule, 0);
    let next = record(groups, rule, place);
    let at = position(groups, rule, 0);
    assert forall|i: int| 0 <= i < next.len() implies (#[trigger] next[i]).first_seen == i
        && next[i].locations.len() > 0 by {
        if i < groups.len() {
            assert(groups[i].first_seen == i);
        }
    }
    assert forall|i: int, j: int| 0 <= i < j < next.len() implies (#[trigger] next[i]).rule != (
    #[trigger] next[j]).rule by {
        if j < groups.len() {
            assert(groups[i].rule != groups[j].rule);
        } else {
            assert(groups[i].rule != rule);
        }
    }
}

/// The groups of every scan are well formed.
pub proof fn lemma_scan_well_formed(lines: Seq<Seq<char>>)
    ensures
        well_formed(scan(lines).groups),
    decreases lines.len(),
{
    if lines.len() > 0 {
        lemma_scan_well_formed(lines.drop_last());
        let before = scan(lines.drop_last());
        let line = lines.last();
        if line_kind(line) is Location && before.current_rule.len() > 0 {
            lemma_record_well_formed(before.groups, before.current_rule, location_of(line));
        }
    }
}

/// Ranking a group that was seen after all the others keeps the order,
/// and adds the group and nothing else.
pub proof fn lemma_insert_keeps_order(sorted: Seq<RuleModel>, g: RuleModel)
    requires
        in_rank_order(sorted),
        forall|i: int| 0 <= i < sorted.len() ==> (#[trigger] sorted[i]).first_seen < g.first_seen,
    ensures
        in_rank_order(insert_ranked(sorted, g)),
        insert_ranked(sorted, g).len() == sorted.len() + 1,
        insert_ranked(sorted, g).to_multiset() == sorted.to_multiset().insert(g),
        forall|i: int|
            0 <= i < insert_ranked(sorted, g).len() ==> (#[trigger] insert_ranked(
                sorted,
                g,
            )[i]).first_seen <= g.first_seen,
    decreases sorted.len(),
{
    broadcast use vstd::seq_lib::group_to_multiset_ensures;

    let result = insert_ranked(sorted, g);
    if sorted.len() == 0 {
        assert(result =~= Seq::<RuleModel>::empty().push(g));
        assert(sorted =~= Seq::<RuleModel>::empty());
    } else if sorted.last().locations.len() >= g.locations.len() {
        assert forall|i: int, j: int| 0 <= i < j < result.len() implies outranks(
            #[trigger] result[i],
            #[trigger] result[j],
        ) by {
            if j < sorted.len() {
                assert(outranks(sorted[i], sorted[j]));
            } else if i < sorted.len() - 1 {
                assert(outranks(sorted[i], sorted[sorted.len() - 1]));
            }
        }
    } else {
        let head = sorted.drop_last();
        let last = sorted.last();
        assert forall|i: int, j: int| 0 <= i < j < head.len() implies outranks(
            #[trigger] head[i],
            #[trigger] head[j],
        ) by {
            assert(outranks(sorted[i], sorted[j]));
        }
        assert forall|i: int| 0 <= i < head.len() implies (#[trigger] head[i]).first_seen
            < g.first_seen by {
            assert(head[i] == sorted[i]);
        }
        lemma_insert_keeps_order(head, g);
        let inner = insert_ranked(head, g);
        lemma_inserted_members(head, g);
        assert forall|i: int, j: int| 0 <= i < j < result.len() implies outranks(
            #[trigger] result[i],
            #[trigger] result[j],
        ) by {
            if j < inner.len() {
                assert(outranks(inner[i], inner[j]));
            } else {
                if inner[i] == g {
                } else {
                    let k = choose|k: int| 0 <= k < head.len() && inner[i] == head[k];
                    assert(outranks(sorted[k], sorted[sorted.len() - 1]));
                }
            }
        }
        assert(sorted =~= head.push(last));
        assert(sorted.to_multiset() =~= head.to_multiset().insert(last));
        assert(result.to_multiset() =~= inner.to_multiset().insert(last));
        assert(result.to_multiset() =~= sorted.to_multiset().insert(g));
    }
}

/// What stands in a ranking after `g` was ranked is `g` or stood there
/// before.
pub proof fn lemma_inserted_members(sorted: Seq<RuleModel>, g: RuleModel)
    ensures
        forall|i: int|
            0 <= i < insert_ranked(sorted, g).len() ==> (#[trigger] insert_ranked(sorted, g)[i])
                == g || exists|k: int| 0 <= k < sorted.len() && insert_ranked(sorted, g)[i] == sorted[k],
    decreases sorted.len(),
{
    let result = insert_ranked(sorted, g);
    if sorted.len() == 0 {
    } else if sorted.last().locations.len() >= g.locations.len() {
        assert forall|i: int| 0 <= i < result.len() implies (#[trigger] result[i]) == g || exists|
            k: int,
        |
            0 <= k < sorted.len() && result[i] == sorted[k] by {
            if i < sorted.len() {
                assert(result[i] == sorted[i]);
            }
        }
    } else {
        let head = sorted.drop_last();
        lemma_inserted_members(head, g);
        let inner = insert_ranked(head, g);
        assert forall|i: int| 0 <= i < result.len() implies (#[trigger] result[i]) == g || exists|
            k: int,
        |
            0 <= k < sorted.len() && result[i] == sorted[k] by {
            if i < inner.len() {
                assert(result[i] == inner[i]);
                if inner[i] != g {
                    let k = choose|k: int| 0 <= k < head.len() && inner[i] == head[k];
                    assert(result[i] == sorted[k]);
                }
            } else {
                assert(result[i] == sorted[sorted.len() - 1]);
            }
        }
    }
}

/// The order of the rules in the summary is total and fixed by the input:
/// the ranking holds the same groups, each once, by descending count of
/// places, and groups of equal count in the order in which they were first
/// seen.
pub proof fn lemma_ranked_order(groups: Seq<RuleModel>)
    requires
        forall|i: int| 0 <= i < groups.len() ==> (#[trigger] groups[i]).first_seen == i,
    ensures
        in_rank_order(ranked(groups)),
        ranked(groups).len() == groups.len(),
        ranked(groups).to_multiset() == groups.to_multiset(),
        forall|i: int|
            0 <= i < ranked(groups).len() ==> (#[trigger] ranked(groups)[i]).first_seen
                < groups.len(),
    decreases groups.len(),
{
    broadcast use vstd::seq_lib::group_to_multiset_ensures;

    if groups.len() == 0 {
    } else {
        let head = groups.drop_last();
        assert forall|i: int| 0 <= i < head.len() implies (#[trigger] head[i]).first_seen == i by {
            assert(head[i] == groups[i]);
        }
        lemma_ranked_order(head);
        lemma_insert_keeps_order(ranked(head), groups.last());
        assert(groups =~= head.push(groups.last()));
        assert(groups.to_multiset() =~= head.to_multiset().insert(groups.last()));
    }
}

/// The rules of every lint summary stand in rank order: by descending
/// count, and rules of equal count in the order in which they were first
/// seen.
pub proof fn lemma_summary_order(text: Seq<char>)
    ensures
        in_rank_order(ranked(scan(chars::lines(text)).groups)),
        ranked(scan(chars::lines(text)).groups).to_multiset() == scan(
            chars::lines(text),
        ).groups.to_multiset(),
{
    lemma_scan_well_formed(chars::lines(text));
    lemma_ranked_order(scan(chars::lines(text)).groups);
}

/// Whether neither the rule of a group nor any of its places holds a line
/// feed.
pub open spec fn neat_group(g: RuleModel) -> bool {
    &&& chars::no_line_feed(g.rule)
    &&& forall|i: int| 0 <= i < g.locations.len() ==> chars::no_line_feed(#[trigger] g.locations[i])
}

/// Whether every group is neat.
pub open spec fn neat(groups: Seq<RuleModel>) -> bool {
    forall|k: int| 0 <= k < groups.len() ==> neat_group(#[trigger] groups[k])
}

/// The rule that a header without line feed names holds none.
pub proof fn lemma_rule_holds_no_line_feed(line: Seq<char>)
    requires
        chars::no_line_feed(line),
    ensures
        chars::no_line_feed(rule_of(line)),
{
    chars::lemma_rfind_char_bounds(line, ']', line.len() as int);
    let close = chars::rfind_char(line, ']', line.len() as int);
    if close >= 0 {
        chars::lemma_rfind_char_bounds(line, '[', close);
        let open = chars::rfind_char(line, '[', close);
        if open >= 0 {
            chars::lemma_part_holds_no_line_feed(line, open + 1, close);
        }
    }
    chars::lemma_tail_holds_no_line_feed(line, "error: "@.len() as int);
    chars::lemma_tail_holds_no_line_feed(line, "warning: "@.len() as int);
}

/// The place that a line without line feed points to holds none.
pub proof fn lemma_location_holds_no_line_feed(line: Seq<char>)
    requires
        chars::no_line_feed(line),
    ensures
        chars::no_line_feed(location_of(line)),
{
    chars::lemma_trimmed_holds_no_line_feed(line);
    let t = chars::trim_start(line);
    chars::lemma_tail_holds_no_line_feed(t, skip_arrows(t, 0));
}

/// Recording a place without line feed under a rule without keeps the
/// groups neat.
pub proof fn lemma_record_neat(groups: Seq<RuleModel>, rule: Seq<char>, place: Seq<char>)
    requires
        neat(groups),
        chars::no_line_feed(rule),
        chars::no_line_feed(place),
    ensures
        neat(record(groups, rule, place)),
{
    lemma_position_bounds(groups, rule, 0);
    let next = record(groups, rule, place);
    let at = position(groups, rule, 0);
    assert forall|k: int| 0 <= k < next.len() implies neat_group(#[trigger] next[k]) by {
        if k < groups.len() {
            assert(neat_group(groups[k]));
            if k == at {
                assert forall|i: int| 0 <= i < next[k].locations.len() implies chars::no_line_feed(
                    #[trigger] next[k].locations[i],
                ) by {
                    if i < groups[k].locations.len() {
                        assert(next[k].locations[i] == groups[k].locations[i]);
                    }
                }
            }
        }
    }
}

/// The scan of lines without line feed gathers neat groups under a rule
/// without line feed.
pub proof fn lemma_scan_neat(lines: Seq<Seq<char>>)
    requires
        forall|i: int| 0 <= i < lines.len() ==> chars::no_line_feed(#[trigger] lines[i]),
    ensures
        neat(scan(lines).groups),
        chars::no_line_feed(scan(lines).current_rule),
    decreases lines.len(),
{
    if lines.len() > 0 {
        let head = lines.drop_last();
        assert forall|i: int| 0 <= i < head.len() implies chars::no_line_feed(#[trigger] head[i]) by {
            assert(head[i] == lines[i]);
        }
        lemma_scan_neat(head);
        let before = scan(head);
        let line = lines.last();
        assert(chars::no_line_feed(lines[lines.len() - 1]));
        lemma_rule_holds_no_line_feed(line);
        lemma_location_holds_no_line_feed(line);
        if line_kind(line) is Location && before.current_rule.len() > 0 {
            lemma_record_neat(before.groups, before.current_rule, location_of(line));
        }
    }
}

/// Every group of the ranking is one of the groups ranked.
pub proof fn lemma_ranked_members(groups: Seq<RuleModel>)
    ensures
        forall|i: int|
            0 <= i < ranked(groups).len() ==> exists|k: int|
                0 <= k < groups.len() && (#[trigger] ranked(groups)[i]) == groups[k],
    decreases groups.len(),
{
    if groups.len() > 0 {
        let head = groups.drop_last();
        lemma_ranked_members(head);
        lemma_inserted_members(ranked(head), groups.last());
        let inner = ranked(head);
        let result = ranked(groups);
        assert forall|i: int| 0 <= i < result.len() implies exists|k: int|
            0 <= k < groups.len() && (#[trigger] result[i]) == groups[k] by {
            if result[i] == groups.last() {
                assert(result[i] == groups[groups.len() - 1]);
            } else {
                let j = choose|j: int| 0 <= j < inner.len() && result[i] == inner[j];
                let k = choose|k: int| 0 <= k < head.len() && inner[j] == head[k];
                assert(result[i] == groups[k]);
            }
        }
    }
}

/// The lines that show a neat rule are plain.
pub proof fn lemma_rule_entry_plain(g: RuleModel)
    requires
        neat_group(g),
    ensures
        layout_plain(rule_entry(g)),
{
    reveal_strlit("  ");
    reveal_strlit(" (");
    reveal_strlit("x)");
    reveal_strlit("    ");
    reveal_strlit("    ... +");
    reveal_strlit(" more");
    let n = g.locations.len();
    chars::lemma_decimal_is_digits(n);
    let head = "  "@ + g.rule + " ("@ + chars::decimal(n) + "x)"@;
    chars::lemma_joint_holds_no_line_feed("  "@, g.rule);
    chars::lemma_joint_holds_no_line_feed("  "@ + g.rule, " ("@);
    chars::lemma_joint_holds_no_line_feed("  "@ + g.rule + " ("@, chars::decimal(n));
    chars::lemma_joint_holds_no_line_feed("  "@ + g.rule + " ("@ + chars::decimal(n), "x)"@);
    assert(head[0] == ' ');
    let places = Seq::new(shown(n, MAX_LOCATIONS as nat), |i: int| "    "@ + g.locations[i]);
    assert forall|i: int| 0 <= i < places.len() implies plain(#[trigger] places[i]) by {
        assert(chars::no_line_feed(g.locations[i]));
        chars::lemma_joint_holds_no_line_feed("    "@, g.locations[i]);
        assert(places[i][0] == ' ');
    }
    let rest: Seq<Seq<char>> = if n > MAX_LOCATIONS {
        seq!["    ... +"@ + chars::decimal((n - MAX_LOCATIONS) as nat) + " more"@]
    } else {
        Seq::empty()
    };
    assert forall|i: int| 0 <= i < rest.len() implies plain(#[trigger] rest[i]) by {
        let left = (n - MAX_LOCATIONS) as nat;
        chars::lemma_decimal_is_digits(left);
        chars::lemma_joint_holds_no_line_feed("    ... +"@, chars::decimal(left));
        chars::lemma_joint_holds_no_line_feed("    ... +"@ + chars::decimal(left), " more"@);
        assert(rest[i][0] == ' ');
    }
    let first = seq![head];
    assert(layout_plain(first)) by {
        assert forall|k: int| 0 <= k < first.len() implies plain(#[trigger] first[k]) by {
            assert(first[k] == head);
        }
    }
    lemma_layouts_plain(first, places);
    lemma_layouts_plain(first + places, rest);
}

/// The lines that show the first `k` of neat rules are plain.
pub proof fn lemma_rule_entries_plain(rules: Seq<RuleModel>, k: nat)
    requires
        neat(rules),
        k <= rules.len(),
    ensures
        layout_plain(rule_entries(rules, k)),
    decreases k,
{
    if k > 0 {
        lemma_rule_entries_plain(rules, (k - 1) as nat);
        assert(neat_group(rules[k - 1]));
        lemma_rule_entry_plain(rules[k - 1]);
        lemma_layouts_plain(rule_entries(rules, (k - 1) as nat), rule_entry(rules[k - 1]));
    }
}

/// The headline of a lint summary is plain and begins with a letter.
pub proof fn lemma_headline_plain(model: LintModel)
    ensures
        plain(model.headline()),
        model.headline().len() > 0,
        model.headline()[0] == 'c',
{
    reveal_strlit("cargo clippy: ");
    reveal_strlit(" errors, ");
    reveal_strlit(" warnings");
    chars::lemma_decimal_is_digits(model.errors);
    chars::lemma_decimal_is_digits(model.warnings);
    let a = "cargo clippy: "@ + chars::decimal(model.errors);
    chars::lemma_joint_holds_no_line_feed("cargo clippy: "@, chars::decimal(model.errors));
    chars::lemma_joint_holds_no_line_feed(a, " errors, "@);
    chars::lemma_joint_holds_no_line_feed(a + " errors, "@, chars::decimal(model.warnings));
    chars::lemma_joint_holds_no_line_feed(
        a + " errors, "@ + chars::decimal(model.warnings),
        " warnings"@,
    );
    assert(model.headline()[0] == 'c');
}

/// The line of a lint run without diagnostics.
pub open spec fn clean_line() -> Seq<char> {
    "\u{2713} cargo clippy: No issues found"@
}

/// The line of a lint run without diagnostics is plain.
pub proof fn lemma_clean_line_plain()
    ensures
        plain(clean_line()),
{
    reveal_strlit("\u{2713} cargo clippy: No issues found");
    assert(clean_line()[0] == '\u{2713}');
}

/// The layout of a lint summary is plain and begins visibly, when the
/// lines of the output hold no line feed.
pub proof fn lemma_layout_plain(lines: Seq<Seq<char>>)
    requires
        forall|i: int| 0 <= i < lines.len() ==> chars::no_line_feed(#[trigger] lines[i]),
    ensures
        layout_plain(scan(lines).layout()),
        begins_visibly(scan(lines).layout()),
{
    lemma_scan_neat(lines);
    let model = scan(lines);
    reveal_strlit("rules");
    let rules = ranked(model.groups);
    lemma_ranked_members(model.groups);
    assert(neat(rules)) by {
        assert forall|i: int| 0 <= i < rules.len() implies neat_group(#[trigger] rules[i]) by {
            let k = choose|k: int| 0 <= k < model.groups.len() && rules[i] == model.groups[k];
            assert(neat_group(model.groups[k]));
        }
    }
    lemma_headline_plain(model);
    lemma_separator_plain();
    let top = seq![model.headline(), separator()];
    assert(layout_plain(top)) by {
        assert forall|k: int| 0 <= k < top.len() implies plain(#[trigger] top[k]) by {
            if k > 0 {
                assert(top[k] == separator());
            }
        }
    }
    let count = shown(rules.len(), MAX_RULES as nat);
    lemma_rule_entries_plain(rules, count);
    lemma_overflow_note_plain(hidden(rules.len(), MAX_RULES as nat), "rules"@);
    lemma_layouts_plain(top, rule_entries(rules, count));
    lemma_layouts_plain(
        top + rule_entries(rules, count),
        overflow_note(hidden(rules.len(), MAX_RULES as nat), "rules"@),
    );
    let layout = model.layout();
    assert(layout[0] == model.headline());
    assert(!chars::is_whitespace('c'));
}

/// No count summary is a line of a lint summary: neither "aborting due
/// to", nor "could not compile", nor "generated N warnings" is shown as a
/// line of its own, whatever the output was.
pub proof fn lemma_no_count_summary_shown(text: Seq<char>)
    ensures
        forall|i: int|
            0 <= i < chars::lines(clippy_summary(text)).len() ==> !is_count_summary(
                #[trigger] chars::lines(clippy_summary(text))[i],
            ),
{
    lemma_summary_is_unmarked(text);
    assert forall|i: int| 0 <= i < chars::lines(clippy_summary(text)).len() implies !is_count_summary(
        #[trigger] chars::lines(clippy_summary(text))[i],
    ) by {
        lemma_unmarked_is_no_summary(chars::lines(clippy_summary(text))[i]);
    }
}

/// No line of a lint summary carries the mark of a diagnostic.
pub proof fn lemma_summary_is_unmarked(text: Seq<char>)
    ensures
        forall|i: int|
            0 <= i < chars::lines(clippy_summary(text)).len() ==> unmarked(
                #[trigger] chars::lines(clippy_summary(text))[i],
            ),
{
    let lines = chars::lines(text);
    chars::lemma_lines_hold_no_line_feed(text, 0);
    let model = scan(lines);
    if model.errors == 0 && model.warnings == 0 {
        lemma_clean_line_plain();
        let layout = seq![clean_line()];
        assert(layout[0] == clean_line());
        assert(chars::join_lines(layout) == clean_line());
        chars::lemma_join_is_beginning(layout);
        lemma_beginning_is_unmarked(layout, chars::unlines(layout).len() - 1);
    } else {
        lemma_layout_plain(lines);
        lemma_rendered_is_unmarked(model.layout());
    }
}

/// A scan of lines that start no diagnostic counts none.
pub proof fn lemma_quiet_scan(lines: Seq<Seq<char>>)
    requires
        forall|i: int| 0 <= i < lines.len() ==> !(line_kind(#[trigger] lines[i]) is Start),
    ensures
        scan(lines).errors == 0,
        scan(lines).warnings == 0,
    decreases lines.len(),
{
    if lines.len() > 0 {
        let head = lines.drop_last();
        assert forall|i: int| 0 <= i < head.len() implies !(line_kind(#[trigger] head[i]) is Start) by {
            assert(head[i] == lines[i]);
        }
        lemma_quiet_scan(head);
        assert(!(line_kind(lines[lines.len() - 1]) is Start));
    }
}

/// The summary of a lint summary reports no issues: a summary read as
/// output again shows no diagnostic that the output did not hold, for it
/// shows none at all.
pub proof fn lemma_summary_of_summary_is_clean(text: Seq<char>)
    ensures
        clippy_summary(clippy_summary(text)) == clean_line(),
{
    let again = chars::lines(clippy_summary(text));
    lemma_summary_is_unmarked(text);
    assert forall|i: int| 0 <= i < again.len() implies !(line_kind(#[trigger] again[i]) is Start) by {
        lemma_unmarked_is_no_summary(again[i]);
    }
    lemma_quiet_scan(again);
}

} // verus!
