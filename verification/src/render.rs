//! The renderer: lays a summary out as lines and makes the final text of
//! them, with fixed limits on how much is shown in full.

use crate::blocks::{
    block_views, blocks_headed, blocks_presentable, count_like, headed, lemma_block_marks,
    lemma_count_like_take, BlockModel, DiagnosticBlock, Severity,
};
use crate::chars;
use crate::classify::{
    is_count_summary, lemma_beginning_marked, lemma_beginning_of_summary, lemma_marks_add,
    lemma_marks_grow, lemma_no_marks, lemma_unmarked_is_no_summary, marked, marks, plain,
    presentable, unmarked,
};
use crate::text;
use vstd::prelude::*;

verus! {

/// How many characters the separator line has.
pub const SEPARATOR_WIDTH: usize = 41;

/// How many diagnostic blocks a summary shows in full.
pub const MAX_BLOCKS: usize = 15;

/// The separator line.
pub open spec fn separator() -> Seq<char> {
    Seq::new(SEPARATOR_WIDTH as nat, |i: int| '\u{2550}')
}

/// The text of a layout: its lines, each ended by a line feed, without the
/// whitespace at both ends of the whole.
pub open spec fn rendered(layout: Seq<Seq<char>>) -> Seq<char> {
    chars::trim(chars::unlines(layout))
}

/// Of `total` items under a limit of `cap`, how many are shown.
pub open spec fn shown(total: nat, cap: nat) -> nat {
    if total > cap {
        cap
    } else {
        total
    }
}

/// Of `total` items under a limit of `cap`, how many are left out.
pub open spec fn hidden(total: nat, cap: nat) -> nat {
    (total - shown(total, cap)) as nat
}

/// The lines that show block `i`: its own, and an empty line after it
/// unless it is the last block of all.
pub open spec fn block_entry(blocks: Seq<BlockModel>, i: int) -> Seq<Seq<char>> {
    if i < blocks.len() - 1 {
        blocks[i].lines.push(Seq::empty())
    } else {
        blocks[i].lines
    }
}

/// The lines that show the first `k` blocks.
pub open spec fn block_entries(blocks: Seq<BlockModel>, k: nat) -> Seq<Seq<char>>
    decreases k,
{
    if k == 0 {
        Seq::empty()
    } else {
        block_entries(blocks, (k - 1) as nat) + block_entry(blocks, k - 1)
    }
}

/// The note that says how many items are left out: nothing when none is, else
/// an empty line and "... +K more" with the name of the items.
pub open spec fn overflow_note(left_out: nat, what: Seq<char>) -> Seq<Seq<char>> {
    if left_out == 0 {
        Seq::empty()
    } else {
        seq![Seq::empty(), "... +"@ + chars::decimal(left_out) + " more "@ + what]
    }
}

/// The part of a layout that shows diagnostic blocks: the first
/// `MAX_BLOCKS` in full, then the note on the rest.
pub open spec fn block_section(blocks: Seq<BlockModel>) -> Seq<Seq<char>> {
    block_entries(blocks, shown(blocks.len(), MAX_BLOCKS as nat)) + overflow_note(
        hidden(blocks.len(), MAX_BLOCKS as nat),
        "issues"@,
    )
}

/// The blocks shown and the blocks left out are all the blocks, and the
/// limit is exact: beyond it, exactly `cap` are shown.
pub proof fn lemma_truncation_is_exact(total: nat, cap: nat)
    ensures
        shown(total, cap) + hidden(total, cap) == total,
        shown(total, cap) <= cap,
        total <= cap ==> shown(total, cap) == total && hidden(total, cap) == 0,
        total > cap ==> shown(total, cap) == cap && hidden(total, cap) == total - cap,
{
}

/// The separator line.
pub fn separator_line() -> (r: Vec<char>)
    ensures
        r@ == separator(),
{
    let mut r: Vec<char> = Vec::new();
    let mut i: usize = 0;
    while i < SEPARATOR_WIDTH
        invariant
            i <= SEPARATOR_WIDTH,
            r@.len() == i,
            forall|k: int| 0 <= k < i ==> r@[k] == '\u{2550}',
        decreases SEPARATOR_WIDTH - i,
    {
        r.push('\u{2550}');
        i += 1;
    }
    assert(r@ =~= separator());
    r
}

/// Makes the final text of a layout.
pub fn render(layout: &Vec<Vec<char>>) -> (r: String)
    ensures
        r@ == rendered(chars::views(layout@)),
{
    let raw = text::unlines(layout);
    text::string_of(text::trim(raw.as_slice()))
}

/// Appends one line to a layout.
pub fn push_line(layout: &mut Vec<Vec<char>>, line: Vec<char>)
    ensures
        chars::views(final(layout)@) == chars::views(old(layout)@).push(line@),
{
    proof {
        chars::lemma_views_push(layout@, line);
    }
    layout.push(line);
}

/// Appends copies of `lines` to a layout.
pub fn push_lines(layout: &mut Vec<Vec<char>>, lines: &Vec<Vec<char>>)
    ensures
        chars::views(final(layout)@) == chars::views(old(layout)@) + chars::views(lines@),
{
    let mut i: usize = 0;
    while i < lines.len()
        invariant
            i <= lines.len(),
            chars::views(layout@) == chars::views(old(layout)@) + chars::views(lines@).take(
                i as int,
            ),
        decreases lines.len() - i,
    {
        let copy = text::to_vec(lines[i].as_slice());
        proof {
            assert(chars::views(lines@).take(i + 1) =~= chars::views(lines@).take(i as int).push(
                copy@,
            ));
            assert(chars::views(old(layout)@) + chars::views(lines@).take(i as int).push(copy@)
                =~= (chars::views(old(layout)@) + chars::views(lines@).take(i as int)).push(
                copy@,
            ));
        }
        push_line(layout, copy);
        i += 1;
    }
    assert(chars::views(lines@).take(lines.len() as int) =~= chars::views(lines@));
}

/// Appends the note on `left_out` items that are not shown.
pub fn push_overflow_note(layout: &mut Vec<Vec<char>>, left_out: usize, what: &str)
    ensures
        chars::views(final(layout)@) == chars::views(old(layout)@) + overflow_note(
            left_out as nat,
            what@,
        ),
{
    if left_out > 0 {
        push_line(layout, Vec::new());
        let mut note: Vec<char> = Vec::new();
        text::push_str(&mut note, "... +");
        text::push_decimal(&mut note, left_out);
        text::push_str(&mut note, " more ");
        text::push_str(&mut note, what);
        push_line(layout, note);
        proof {
            let e: Seq<char> = Seq::empty();
            assert(note@ =~= "... +"@ + chars::decimal(left_out as nat) + " more "@ + what@);
            assert(chars::views(old(layout)@).push(e).push(note@) =~= chars::views(old(layout)@)
                + overflow_note(left_out as nat, what@));
        }
    } else {
        assert(chars::views(old(layout)@) + overflow_note(0, what@) =~= chars::views(
            old(layout)@,
        ));
    }
}

/// Appends the part of a layout that shows diagnostic blocks.
pub fn push_block_section(layout: &mut Vec<Vec<char>>, blocks: &Vec<DiagnosticBlock>)
    ensures
        chars::views(final(layout)@) == chars::views(old(layout)@) + block_section(
            block_views(blocks@),
        ),
{
    let ghost bv = block_views(blocks@);
    let total = blocks.len();
    let limit = if total > MAX_BLOCKS {
        MAX_BLOCKS
    } else {
        total
    };
    let mut i: usize = 0;
    while i < limit
        invariant
            i <= limit <= total,
            total == blocks.len(),
            bv == block_views(blocks@),
            chars::views(layout@) == chars::views(old(layout)@) + block_entries(bv, i as nat),
        decreases limit - i,
    {
        let ghost before = chars::views(layout@);
        push_lines(layout, &blocks[i].lines);
        if i < total - 1 {
            push_line(layout, Vec::new());
        }
        proof {
            assert(bv[i as int].lines == chars::views(blocks[i as int].lines@));
            assert(chars::views(layout@) =~= before + block_entry(bv, i as int));
            assert(before + block_entry(bv, i as int) =~= chars::views(old(layout)@) + (
            block_entries(bv, i as nat) + block_entry(bv, i as int)));
        }
        i += 1;
    }
    push_overflow_note(layout, total - limit, "issues");
    proof {
        assert(chars::views(layout@) =~= chars::views(old(layout)@) + (block_entries(
            bv,
            limit as nat,
        ) + overflow_note((total - limit) as nat, "issues"@)));
    }
}

/// Whether a layout begins with a character that is no whitespace.
pub open spec fn begins_visibly(layout: Seq<Seq<char>>) -> bool {
    layout.len() > 0 && layout[0].len() > 0 && !chars::is_whitespace(layout[0][0])
}

/// Whether a summary may show every line of the layout.
pub open spec fn layout_presentable(layout: Seq<Seq<char>>) -> bool {
    forall|k: int| 0 <= k < layout.len() ==> presentable(#[trigger] layout[k])
}

/// No line of a beginning of `unlines(layout)` is a count summary, when the
/// layout is presentable.
pub proof fn lemma_beginning_shows_no_summary(layout: Seq<Seq<char>>, len: int)
    requires
        layout_presentable(layout),
        0 <= len <= chars::unlines(layout).len(),
    ensures
        forall|i: int|
            0 <= i < chars::lines(chars::unlines(layout).subrange(0, len)).len()
                ==> !is_count_summary(
                #[trigger] chars::lines(chars::unlines(layout).subrange(0, len))[i],
            ),
{
    let text = chars::unlines(layout).subrange(0, len);
    assert(layout.take(0) =~= Seq::empty());
    assert(chars::line_start(layout, 0) == 0);
    assert forall|k: int| 0 <= k < layout.len() implies chars::no_line_feed(
        #[trigger] layout[k],
    ) by {
        assert(presentable(layout[k]));
    }
    chars::lemma_lines_of_beginning(layout, len, 0);
    assert forall|i: int| 0 <= i < chars::lines(text).len() implies !is_count_summary(
        #[trigger] chars::lines(text)[i],
    ) by {
        let line = chars::lines(text)[i];
        assert(chars::begins_line(line, layout, 0 + i));
        let to = choose|to: int|
            0 <= to <= layout[i].len() && line == #[trigger] chars::cut(layout, i, to);
        assert(presentable(layout[i]));
        if is_count_summary(line) {
            lemma_beginning_of_summary(layout[i], to);
        }
    }
}

/// The text of a layout that begins visibly is `unlines` of it without
/// the whitespace at its end.
pub proof fn lemma_rendered_is_beginning(layout: Seq<Seq<char>>)
    requires
        begins_visibly(layout),
    ensures
        0 <= chars::skip_whitespace_back(
            chars::unlines(layout),
            chars::unlines(layout).len() as int,
        ) <= chars::unlines(layout).len(),
        rendered(layout) == chars::unlines(layout).subrange(
            0,
            chars::skip_whitespace_back(
                chars::unlines(layout),
                chars::unlines(layout).len() as int,
            ),
        ),
{
    let whole = chars::unlines(layout);
    assert(layout.take(0) =~= Seq::empty());
    chars::lemma_unlines_holds_line(layout, 0);
    assert(whole[chars::line_start(layout, 0) + 0] == layout[0][0]);
    assert(chars::skip_whitespace(whole, 0) == 0);
    assert(chars::trim_start(whole) =~= whole);
    chars::lemma_skip_whitespace_back_bounds(whole, whole.len() as int);
}

/// No line of the text of a layout is a count summary, when the layout is
/// presentable and begins visibly.
pub proof fn lemma_rendered_shows_no_summary(layout: Seq<Seq<char>>)
    requires
        layout_presentable(layout),
        begins_visibly(layout),
    ensures
        forall|i: int|
            0 <= i < chars::lines(rendered(layout)).len() ==> !is_count_summary(
                #[trigger] chars::lines(rendered(layout))[i],
            ),
{
    lemma_rendered_is_beginning(layout);
    let len = chars::skip_whitespace_back(
        chars::unlines(layout),
        chars::unlines(layout).len() as int,
    );
    lemma_beginning_shows_no_summary(layout, len);
}

/// No line of the joined lines of a layout is a count summary, when the
/// layout is presentable.
pub proof fn lemma_joined_shows_no_summary(layout: Seq<Seq<char>>)
    requires
        layout_presentable(layout),
    ensures
        forall|i: int|
            0 <= i < chars::lines(chars::join_lines(layout)).len() ==> !is_count_summary(
                #[trigger] chars::lines(chars::join_lines(layout))[i],
            ),
{
    if layout.len() > 0 {
        chars::lemma_join_is_beginning(layout);
        lemma_beginning_shows_no_summary(layout, chars::unlines(layout).len() - 1);
    }
}

/// No line of a presentable text is a count summary.
pub proof fn lemma_line_shows_no_summary(line: Seq<char>)
    requires
        presentable(line),
    ensures
        forall|i: int|
            0 <= i < chars::lines(line).len() ==> !is_count_summary(#[trigger] chars::lines(line)[i]),
{
    let layout = seq![line];
    assert(layout[0] == line);
    assert(chars::join_lines(layout) == line);
    lemma_joined_shows_no_summary(layout);
}

/// Whether every line of the layout is plain.
pub open spec fn layout_plain(layout: Seq<Seq<char>>) -> bool {
    forall|k: int| 0 <= k < layout.len() ==> plain(#[trigger] layout[k])
}

/// A plain layout is presentable.
pub proof fn lemma_plain_is_presentable(layout: Seq<Seq<char>>)
    requires
        layout_plain(layout),
    ensures
        layout_presentable(layout),
{
    assert forall|k: int| 0 <= k < layout.len() implies presentable(#[trigger] layout[k]) by {
        assert(plain(layout[k]));
        lemma_unmarked_is_no_summary(layout[k]);
    }
}

/// Two plain layouts in a row are plain.
pub proof fn lemma_layouts_plain(a: Seq<Seq<char>>, b: Seq<Seq<char>>)
    requires
        layout_plain(a),
        layout_plain(b),
    ensures
        layout_plain(a + b),
{
    assert forall|i: int| 0 <= i < (a + b).len() implies plain(#[trigger] (a + b)[i]) by {
        if i < a.len() {
            assert(plain(a[i]));
        } else {
            assert(plain(b[i - a.len()]));
        }
    }
}

/// Every line of a beginning of `unlines(layout)` is unmarked, when the
/// layout is plain.
pub proof fn lemma_beginning_is_unmarked(layout: Seq<Seq<char>>, len: int)
    requires
        layout_plain(layout),
        0 <= len <= chars::unlines(layout).len(),
    ensures
        forall|i: int|
            0 <= i < chars::lines(chars::unlines(layout).subrange(0, len)).len() ==> unmarked(
                #[trigger] chars::lines(chars::unlines(layout).subrange(0, len))[i],
            ),
{
    let text = chars::unlines(layout).subrange(0, len);
    assert(layout.take(0) =~= Seq::empty());
    assert(chars::line_start(layout, 0) == 0);
    assert forall|k: int| 0 <= k < layout.len() implies chars::no_line_feed(
        #[trigger] layout[k],
    ) by {
        assert(plain(layout[k]));
    }
    chars::lemma_lines_of_beginning(layout, len, 0);
    assert forall|i: int| 0 <= i < chars::lines(text).len() implies unmarked(
        #[trigger] chars::lines(text)[i],
    ) by {
        let line = chars::lines(text)[i];
        assert(chars::begins_line(line, layout, 0 + i));
        let to = choose|to: int|
            0 <= to <= layout[i].len() && line == #[trigger] chars::cut(layout, i, to);
        assert(plain(layout[i]));
    }
}

/// Every line of the text of a layout is unmarked, when the layout is
/// plain and begins visibly.
pub proof fn lemma_rendered_is_unmarked(layout: Seq<Seq<char>>)
    requires
        layout_plain(layout),
        begins_visibly(layout),
    ensures
        forall|i: int|
            0 <= i < chars::lines(rendered(layout)).len() ==> unmarked(
                #[trigger] chars::lines(rendered(layout))[i],
            ),
{
    lemma_rendered_is_beginning(layout);
    let len = chars::skip_whitespace_back(
        chars::unlines(layout),
        chars::unlines(layout).len() as int,
    );
    lemma_beginning_is_unmarked(layout, len);
}

/// The separator is plain.
pub proof fn lemma_separator_plain()
    ensures
        plain(separator()),
{
}

/// The separator is presentable.
pub proof fn lemma_separator_presentable()
    ensures
        presentable(separator()),
{
    lemma_unmarked_is_no_summary(separator());
}

/// The note on what is left out is plain, when the name of the items holds
/// no line feed.
pub proof fn lemma_overflow_note_plain(left_out: nat, what: Seq<char>)
    requires
        chars::no_line_feed(what),
    ensures
        layout_plain(overflow_note(left_out, what)),
{
    if left_out > 0 {
        reveal_strlit("... +");
        reveal_strlit(" more ");
        chars::lemma_decimal_is_digits(left_out);
        let note = "... +"@ + chars::decimal(left_out) + " more "@ + what;
        chars::lemma_joint_holds_no_line_feed("... +"@, chars::decimal(left_out));
        chars::lemma_joint_holds_no_line_feed("... +"@ + chars::decimal(left_out), " more "@);
        chars::lemma_joint_holds_no_line_feed(
            "... +"@ + chars::decimal(left_out) + " more "@,
            what,
        );
        assert(note[0] == '.');
    }
}

/// The part of a layout that shows presentable blocks is presentable.
pub proof fn lemma_block_entries_presentable(blocks: Seq<BlockModel>, k: nat)
    requires
        blocks_presentable(blocks),
        k <= blocks.len(),
    ensures
        layout_presentable(block_entries(blocks, k)),
    decreases k,
{
    if k > 0 {
        lemma_block_entries_presentable(blocks, (k - 1) as nat);
        let before = block_entries(blocks, (k - 1) as nat);
        let entry = block_entry(blocks, k - 1);
        lemma_unmarked_is_no_summary(Seq::empty());
        assert forall|i: int| 0 <= i < entry.len() implies presentable(#[trigger] entry[i]) by {
            if i < blocks[k - 1].lines.len() {
                assert(entry[i] == blocks[k - 1].lines[i]);
            }
        }
        assert forall|i: int| 0 <= i < (before + entry).len() implies presentable(
            #[trigger] (before + entry)[i],
        ) by {
            if i < before.len() {
                assert(presentable(before[i]));
            } else {
                assert(presentable(entry[i - before.len()]));
            }
        }
    }
}

/// The part of a layout that shows presentable blocks, with its note, is
/// presentable.
pub proof fn lemma_block_section_presentable(blocks: Seq<BlockModel>)
    requires
        blocks_presentable(blocks),
    ensures
        layout_presentable(block_section(blocks)),
{
    reveal_strlit("issues");
    let entries = block_entries(blocks, shown(blocks.len(), MAX_BLOCKS as nat));
    let note = overflow_note(hidden(blocks.len(), MAX_BLOCKS as nat), "issues"@);
    lemma_block_entries_presentable(blocks, shown(blocks.len(), MAX_BLOCKS as nat));
    lemma_overflow_note_plain(hidden(blocks.len(), MAX_BLOCKS as nat), "issues"@);
    lemma_plain_is_presentable(note);
    lemma_layouts_presentable(entries, note);
}

/// Two presentable layouts in a row are presentable.
pub proof fn lemma_layouts_presentable(a: Seq<Seq<char>>, b: Seq<Seq<char>>)
    requires
        layout_presentable(a),
        layout_presentable(b),
    ensures
        layout_presentable(a + b),
{
    assert forall|i: int| 0 <= i < (a + b).len() implies presentable(#[trigger] (a + b)[i]) by {
        if i < a.len() {
            assert(presentable(a[i]));
        } else {
            assert(presentable(b[i - a.len()]));
        }
    }
}

/// The lines that show the first `k` of headed blocks hold no more marks
/// of a severity than there are blocks of it among them.
pub proof fn lemma_block_entries_marks(blocks: Seq<BlockModel>, k: nat, severity: Severity)
    requires
        blocks_headed(blocks, severity),
        k <= blocks.len(),
    ensures
        marks(block_entries(blocks, k), severity) <= count_like(blocks.take(k as int), severity),
    decreases k,
{
    if k > 0 {
        lemma_block_entries_marks(blocks, (k - 1) as nat, severity);
        let before = block_entries(blocks, (k - 1) as nat);
        let entry = block_entry(blocks, k - 1);
        let b = blocks[k - 1];
        assert(headed(b, severity));
        lemma_block_marks(b, severity);
        lemma_marks_add(before, entry, severity);
        if entry.len() > b.lines.len() {
            let blank = seq![Seq::<char>::empty()];
            assert(entry =~= b.lines + blank);
            lemma_marks_add(b.lines, blank, severity);
            assert forall|i: int| 0 <= i < blank.len() implies !marked(#[trigger] blank[i], severity) by {
                lemma_unmarked_is_no_summary(blank[i]);
            }
            lemma_no_marks(blank, severity);
        }
        assert(blocks.take(k as int).drop_last() =~= blocks.take(k - 1));
        assert(blocks.take(k as int).last() == b);
    }
}

/// The part of a layout that shows headed blocks holds no more marks of a
/// severity than there are blocks of it.
pub proof fn lemma_block_section_marks(blocks: Seq<BlockModel>, severity: Severity)
    requires
        blocks_headed(blocks, severity),
    ensures
        marks(block_section(blocks), severity) <= count_like(blocks, severity),
{
    reveal_strlit("issues");
    let k = shown(blocks.len(), MAX_BLOCKS as nat);
    let entries = block_entries(blocks, k);
    let note = overflow_note(hidden(blocks.len(), MAX_BLOCKS as nat), "issues"@);
    lemma_block_entries_marks(blocks, k, severity);
    lemma_count_like_take(blocks, k as int, severity);
    lemma_overflow_note_plain(hidden(blocks.len(), MAX_BLOCKS as nat), "issues"@);
    assert forall|i: int| 0 <= i < note.len() implies !marked(#[trigger] note[i], severity) by {
        assert(plain(note[i]));
        lemma_unmarked_is_no_summary(note[i]);
    }
    lemma_no_marks(note, severity);
    lemma_marks_add(entries, note, severity);
}

/// The lines of the text of a layout hold no more marks of a severity than
/// the layout, when no line of the layout holds a line feed and the layout
/// begins visibly.
pub proof fn lemma_rendered_marks(layout: Seq<Seq<char>>, severity: Severity)
    requires
        forall|k: int| 0 <= k < layout.len() ==> chars::no_line_feed(#[trigger] layout[k]),
        begins_visibly(layout),
    ensures
        marks(chars::lines(rendered(layout)), severity) <= marks(layout, severity),
{
    lemma_rendered_is_beginning(layout);
    let len = chars::skip_whitespace_back(
        chars::unlines(layout),
        chars::unlines(layout).len() as int,
    );
    lemma_beginning_marks(layout, len, severity);
}

/// The lines of a beginning of `unlines(layout)` hold no more marks of a
/// severity than the layout, when no line of the layout holds a line feed.
pub proof fn lemma_beginning_marks(layout: Seq<Seq<char>>, len: int, severity: Severity)
    requires
        forall|k: int| 0 <= k < layout.len() ==> chars::no_line_feed(#[trigger] layout[k]),
        0 <= len <= chars::unlines(layout).len(),
    ensures
        marks(chars::lines(chars::unlines(layout).subrange(0, len)), severity) <= marks(
            layout,
            severity,
        ),
{
    let text = chars::unlines(layout).subrange(0, len);
    let shown_lines = chars::lines(text);
    assert(layout.take(0) =~= Seq::empty());
    assert(chars::line_start(layout, 0) == 0);
    chars::lemma_lines_of_beginning(layout, len, 0);
    assert forall|i: int|
        0 <= i < shown_lines.len() && marked(#[trigger] shown_lines[i], severity) implies marked(
        layout[i],
        severity,
    ) by {
        assert(chars::begins_line(shown_lines[i], layout, 0 + i));
        let to = choose|to: int|
            0 <= to <= layout[i].len() && shown_lines[i] == #[trigger] chars::cut(layout, i, to);
        lemma_beginning_marked(layout[i], to, severity);
    }
    lemma_marks_grow(shown_lines, layout, severity);
}

} // verus!
