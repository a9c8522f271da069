//! The block accumulator: groups the lines of one diagnostic into a block.
//!
//! It is a small state machine. It is idle until a diagnostic starts; then
//! it holds the open block, to which the following lines are appended, until
//! a blank line closes a block that has grown past a few lines, or the next
//! diagnostic starts.

use crate::chars;
use crate::classify::{lemma_marks_add, lemma_no_marks, marked, marks, presentable};
use crate::text;
use vstd::prelude::*;

verus! {

/// A blank line closes the open block only when the block already holds more
/// lines than this; a shorter block takes the blank line in.
pub const BLANK_CLOSES_AFTER: usize = 3;

/// How grave a diagnostic is.
#[derive(Clone, Copy, Debug)]
pub enum Severity {
    Error,
    Warning,
}

/// One diagnostic: its severity and its lines, the first of which is its
/// header.
pub struct BlockModel {
    pub severity: Severity,
    pub lines: Seq<Seq<char>>,
}

/// The state of the accumulator as the contracts see it.
pub struct Accumulation {
    /// How many errors began.
    pub errors: nat,
    /// How many warnings began.
    pub warnings: nat,
    /// The blocks that are complete, in the order in which they began.
    pub closed: Seq<BlockModel>,
    /// The block that lines are appended to, if one is open.
    pub open: Option<BlockModel>,
}

/// How many of `blocks` have the severity of `like`.
pub open spec fn count_like(blocks: Seq<BlockModel>, like: Severity) -> nat
    decreases blocks.len(),
{
    if blocks.len() == 0 {
        0
    } else {
        count_like(blocks.drop_last(), like) + if same_severity(blocks.last().severity, like) {
            1nat
        } else {
            0nat
        }
    }
}

/// Whether two severities are the same one.
pub open spec fn same_severity(a: Severity, b: Severity) -> bool {
    (a is Error) == (b is Error)
}

impl Accumulation {
    /// Idle, with nothing counted or collected.
    pub open spec fn empty() -> Accumulation {
        Accumulation { errors: 0, warnings: 0, closed: Seq::empty(), open: None }
    }

    /// The complete blocks together with the open one, in order.
    pub open spec fn blocks(self) -> Seq<BlockModel> {
        match self.open {
            Some(b) => self.closed.push(b),
            None => self.closed,
        }
    }

    /// A diagnostic of the given severity starts with `line`: the open block,
    /// if any, is complete, the diagnostic is counted and a new block opens.
    pub open spec fn begin(self, severity: Severity, line: Seq<char>) -> Accumulation {
        Accumulation {
            errors: if severity is Error {
                self.errors + 1
            } else {
                self.errors
            },
            warnings: if severity is Warning {
                self.warnings + 1
            } else {
                self.warnings
            },
            closed: self.blocks(),
            open: Some(BlockModel { severity, lines: seq![line] }),
        }
    }

    /// A line that starts nothing arrives. While idle it is dropped. A blank
    /// line closes an open block of more than `BLANK_CLOSES_AFTER` lines;
    /// any other line, and a blank line in a shorter block, is appended.
    pub open spec fn feed(self, line: Seq<char>) -> Accumulation {
        match self.open {
            None => self,
            Some(b) => if chars::is_blank(line) && b.lines.len() > BLANK_CLOSES_AFTER {
                Accumulation { closed: self.closed.push(b), open: None, ..self }
            } else {
                Accumulation {
                    open: Some(BlockModel { severity: b.severity, lines: b.lines.push(line) }),
                    ..self
                }
            },
        }
    }

    /// What holds of every state that `begin` and `feed` lead to from
    /// `empty`: no block is without lines, and each count is the number of
    /// blocks of its severity.
    pub open spec fn consistent(self) -> bool {
        &&& forall|i: int| 0 <= i < self.blocks().len() ==> (#[trigger] self.blocks()[i]).lines.len() > 0
        &&& self.errors == count_like(self.blocks(), Severity::Error)
        &&& self.warnings == count_like(self.blocks(), Severity::Warning)
        &&& self.errors + self.warnings == self.blocks().len()
    }
}

/// One diagnostic as the scanner holds it.
pub struct DiagnosticBlock {
    pub severity: Severity,
    pub lines: Vec<Vec<char>>,
}

impl View for DiagnosticBlock {
    type V = BlockModel;

    open spec fn view(&self) -> BlockModel {
        BlockModel { severity: self.severity, lines: chars::views(self.lines@) }
    }
}

/// The diagnostics that a vector of blocks holds.
pub open spec fn block_views(bs: Seq<DiagnosticBlock>) -> Seq<BlockModel> {
    Seq::new(bs.len(), |i: int| bs[i]@)
}

/// The accumulator as the scanner holds it.
pub struct Accumulator {
    pub errors: usize,
    pub warnings: usize,
    pub closed: Vec<DiagnosticBlock>,
    pub open: Option<DiagnosticBlock>,
}

impl View for Accumulator {
    type V = Accumulation;

    open spec fn view(&self) -> Accumulation {
        Accumulation {
            errors: self.errors as nat,
            warnings: self.warnings as nat,
            closed: block_views(self.closed@),
            open: match self.open {
                Some(b) => Some(b@),
                None => None,
            },
        }
    }
}

impl Accumulator {
    /// An idle accumulator that has seen nothing.
    pub fn new() -> (r: Accumulator)
        ensures
            r@ == Accumulation::empty(),
    {
        let r = Accumulator { errors: 0, warnings: 0, closed: Vec::new(), open: None };
        assert(r@.closed =~= Seq::empty());
        r
    }

    /// Starts a diagnostic of the given severity with `line` as its header.
    pub fn begin(self, severity: Severity, line: &[char]) -> (r: Accumulator)
        requires
            self@.errors + self@.warnings < usize::MAX,
        ensures
            r@ == self@.begin(severity, line@),
    {
        let ghost before = self@;
        let Accumulator { errors, warnings, closed, open } = self;
        let mut closed = closed;
        match open {
            Some(b) => {
                proof {
                    assert(block_views(closed@.push(b)) =~= block_views(closed@).push(b@));
                }
                closed.push(b);
            },
            None => {},
        }
        let mut lines: Vec<Vec<char>> = Vec::new();
        let header = text::to_vec(line);
        proof {
            chars::lemma_views_push(lines@, header);
            assert(chars::views(lines@) =~= Seq::empty());
        }
        lines.push(header);
        let (errors, warnings) = match severity {
            Severity::Error => (errors + 1, warnings),
            Severity::Warning => (errors, warnings + 1),
        };
        let r = Accumulator {
            errors,
            warnings,
            closed,
            open: Some(DiagnosticBlock { severity, lines }),
        };
        proof {
            assert(r@.open->0.lines =~= seq![line@]);
            assert(r@.closed == before.blocks());
        }
        r
    }

    /// Takes a line that starts nothing.
    pub fn feed(self, line: &[char]) -> (r: Accumulator)
        ensures
            r@ == self@.feed(line@),
    {
        let Accumulator { errors, warnings, closed, open } = self;
        let mut closed = closed;
        match open {
            None => Accumulator { errors, warnings, closed, open: None },
            Some(b) => {
                if text::is_blank(line) && b.lines.len() > BLANK_CLOSES_AFTER {
                    proof {
                        assert(block_views(closed@.push(b)) =~= block_views(closed@).push(b@));
                    }
                    closed.push(b);
                    Accumulator { errors, warnings, closed, open: None }
                } else {
                    let DiagnosticBlock { severity, lines } = b;
                    let mut lines = lines;
                    let copy = text::to_vec(line);
                    proof {
                        chars::lemma_views_push(lines@, copy);
                    }
                    lines.push(copy);
                    Accumulator {
                        errors,
                        warnings,
                        closed,
                        open: Some(DiagnosticBlock { severity, lines }),
                    }
                }
            },
        }
    }

    /// Ends the scan: the blocks collected, the open one last.
    pub fn finish(self) -> (r: Vec<DiagnosticBlock>)
        ensures
            block_views(r@) == self@.blocks(),
    {
        let Accumulator { errors, warnings, closed, open } = self;
        let mut closed = closed;
        match open {
            Some(b) => {
                proof {
                    assert(block_views(closed@.push(b)) =~= block_views(closed@).push(b@));
                }
                closed.push(b);
            },
            None => {},
        }
        closed
    }
}

/// Counting over blocks of which one was appended.
pub proof fn lemma_count_like_push(blocks: Seq<BlockModel>, b: BlockModel, like: Severity)
    ensures
        count_like(blocks.push(b), like) == count_like(blocks, like) + if same_severity(
            b.severity,
            like,
        ) {
            1nat
        } else {
            0nat
        },
{
    assert(blocks.push(b).drop_last() =~= blocks);
}

/// Nothing collected is consistent.
pub proof fn lemma_empty_consistent()
    ensures
        Accumulation::empty().consistent(),
{
}

/// Starting a diagnostic keeps the accumulator consistent.
pub proof fn lemma_begin_consistent(acc: Accumulation, severity: Severity, line: Seq<char>)
    requires
        acc.consistent(),
    ensures
        acc.begin(severity, line).consistent(),
{
    let next = acc.begin(severity, line);
    let b = BlockModel { severity, lines: seq![line] };
    assert(next.blocks() == acc.blocks().push(b));
    lemma_count_like_push(acc.blocks(), b, Severity::Error);
    lemma_count_like_push(acc.blocks(), b, Severity::Warning);
    assert forall|i: int| 0 <= i < next.blocks().len() implies (#[trigger] next.blocks()[i]).lines.len()
        > 0 by {
        if i < acc.blocks().len() {
            assert(next.blocks()[i] == acc.blocks()[i]);
        }
    }
}

/// Feeding a line keeps the accumulator consistent.
pub proof fn lemma_feed_consistent(acc: Accumulation, line: Seq<char>)
    requires
        acc.consistent(),
    ensures
        acc.feed(line).consistent(),
{
    let next = acc.feed(line);
    match acc.open {
        None => {},
        Some(b) => {
            if chars::is_blank(line) && b.lines.len() > BLANK_CLOSES_AFTER {
                assert(next.blocks() == acc.blocks());
            } else {
                let grown = BlockModel { severity: b.severity, lines: b.lines.push(line) };
                assert(next.blocks() == acc.closed.push(grown));
                assert(acc.blocks() == acc.closed.push(b));
                lemma_count_like_push(acc.closed, b, Severity::Error);
                lemma_count_like_push(acc.closed, b, Severity::Warning);
                lemma_count_like_push(acc.closed, grown, Severity::Error);
                lemma_count_like_push(acc.closed, grown, Severity::Warning);
                assert forall|i: int| 0 <= i < next.blocks().len() implies (
                #[trigger] next.blocks()[i]).lines.len() > 0 by {
                    if i < acc.closed.len() {
                        assert(next.blocks()[i] == acc.blocks()[i]);
                    }
                }
            }
        },
    }
}

/// Whether a summary may show every line of every block.
pub open spec fn blocks_presentable(blocks: Seq<BlockModel>) -> bool {
    forall|i: int, j: int|
        0 <= i < blocks.len() && 0 <= j < blocks[i].lines.len() ==> presentable(
            #[trigger] blocks[i].lines[j],
        )
}

/// Starting a diagnostic with a presentable line keeps the blocks
/// presentable.
pub proof fn lemma_begin_presentable(acc: Accumulation, severity: Severity, line: Seq<char>)
    requires
        blocks_presentable(acc.blocks()),
        presentable(line),
    ensures
        blocks_presentable(acc.begin(severity, line).blocks()),
{
    let before = acc.blocks();
    let after = acc.begin(severity, line).blocks();
    assert forall|i: int, j: int|
        0 <= i < after.len() && 0 <= j < after[i].lines.len() implies presentable(
        #[trigger] after[i].lines[j],
    ) by {
        if i < before.len() {
            assert(after[i] == before[i]);
            assert(presentable(before[i].lines[j]));
        }
    }
}

/// Feeding a presentable line keeps the blocks presentable.
pub proof fn lemma_feed_presentable(acc: Accumulation, line: Seq<char>)
    requires
        blocks_presentable(acc.blocks()),
        presentable(line),
    ensures
        blocks_presentable(acc.feed(line).blocks()),
{
    let before = acc.blocks();
    let after = acc.feed(line).blocks();
    assert forall|i: int, j: int|
        0 <= i < after.len() && 0 <= j < after[i].lines.len() implies presentable(
        #[trigger] after[i].lines[j],
    ) by {
        if acc.open is Some {
            if i < acc.closed.len() {
                assert(after[i] == before[i]);
                assert(presentable(before[i].lines[j]));
            } else if j < before[i].lines.len() {
                assert(after[i].lines[j] == before[i].lines[j]);
                assert(presentable(before[i].lines[j]));
            }
        } else {
            assert(presentable(before[i].lines[j]));
        }
    }
}

/// Whether the block is made as the scan makes blocks, as far as the mark
/// of the severity goes: only its first line may carry the mark, and only
/// if the block is of that severity.
pub open spec fn headed(b: BlockModel, severity: Severity) -> bool {
    &&& b.lines.len() > 0
    &&& marked(b.lines[0], severity) ==> same_severity(b.severity, severity)
    &&& forall|j: int| 0 < j < b.lines.len() ==> !marked(#[trigger] b.lines[j], severity)
}

/// Whether every block is headed.
pub open spec fn blocks_headed(blocks: Seq<BlockModel>, severity: Severity) -> bool {
    forall|i: int| 0 <= i < blocks.len() ==> headed(#[trigger] blocks[i], severity)
}

/// Starting a diagnostic keeps the blocks headed, when its line carries
/// the mark only if the diagnostic is of that severity.
pub proof fn lemma_begin_headed(
    acc: Accumulation,
    severity: Severity,
    line: Seq<char>,
    mark: Severity,
)
    requires
        blocks_headed(acc.blocks(), mark),
        marked(line, mark) ==> same_severity(severity, mark),
    ensures
        blocks_headed(acc.begin(severity, line).blocks(), mark),
{
    let before = acc.blocks();
    let after = acc.begin(severity, line).blocks();
    assert forall|i: int| 0 <= i < after.len() implies headed(#[trigger] after[i], mark) by {
        if i < before.len() {
            assert(after[i] == before[i]);
            assert(headed(before[i], mark));
        }
    }
}

/// Feeding a line without the mark keeps the blocks headed.
pub proof fn lemma_feed_headed(acc: Accumulation, line: Seq<char>, mark: Severity)
    requires
        blocks_headed(acc.blocks(), mark),
        !marked(line, mark),
    ensures
        blocks_headed(acc.feed(line).blocks(), mark),
{
    let before = acc.blocks();
    let after = acc.feed(line).blocks();
    assert forall|i: int| 0 <= i < after.len() implies headed(#[trigger] after[i], mark) by {
        assert(headed(before[i], mark));
        if acc.open is Some && i == acc.closed.len() {
            let b = before[i];
            let grown = after[i];
            if !(chars::is_blank(line) && b.lines.len() > BLANK_CLOSES_AFTER) {
                assert(grown.lines[0] == b.lines[0]);
                assert forall|j: int| 0 < j < grown.lines.len() implies !marked(
                    #[trigger] grown.lines[j],
                    mark,
                ) by {
                    if j < b.lines.len() {
                        assert(grown.lines[j] == b.lines[j]);
                    }
                }
            }
        } else {
            assert(after[i] == before[i]);
        }
    }
}

/// A headed block holds the mark once at most, and not at all when it is
/// of the other severity.
pub proof fn lemma_block_marks(b: BlockModel, severity: Severity)
    requires
        headed(b, severity),
    ensures
        marks(b.lines, severity) <= if same_severity(b.severity, severity) {
            1nat
        } else {
            0nat
        },
{
    let first = seq![b.lines[0]];
    let rest = b.lines.subrange(1, b.lines.len() as int);
    assert(b.lines =~= first + rest);
    lemma_marks_add(first, rest, severity);
    assert forall|i: int| 0 <= i < rest.len() implies !marked(#[trigger] rest[i], severity) by {
        assert(rest[i] == b.lines[i + 1]);
    }
    lemma_no_marks(rest, severity);
    assert(first.drop_last().len() == 0);
    assert(marks(first.drop_last(), severity) == 0);
    assert(first.last() == b.lines[0]);
    assert(marks(first, severity) == if marked(b.lines[0], severity) {
        1nat
    } else {
        0nat
    });
}

/// The first blocks hold no more blocks of a severity than all of them.
pub proof fn lemma_count_like_take(blocks: Seq<BlockModel>, k: int, like: Severity)
    requires
        0 <= k <= blocks.len(),
    ensures
        count_like(blocks.take(k), like) <= count_like(blocks, like),
    decreases blocks.len(),
{
    if k == blocks.len() {
        assert(blocks.take(k) =~= blocks);
    } else {
        lemma_count_like_take(blocks.drop_last(), k, like);
        assert(blocks.drop_last().take(k) =~= blocks.take(k));
    }
}

} // verus!
