//! Texts of several lines, such as the details of a failed test, and what
//! keeps them free of count summaries when they are joined, cut and shown.

use crate::chars;
use crate::classify::{
    is_count_summary, lemma_beginning_of_summary, lemma_unmarked_is_no_summary, plain, presentable,
    unmarked,
};
use crate::render::{begins_visibly, layout_plain, lemma_rendered_is_beginning, rendered};
use vstd::prelude::*;

verus! {

/// Whether a line begins in `t` at `a`: at the start or behind a line feed.
pub open spec fn line_begins(t: Seq<char>, a: int) -> bool {
    0 <= a <= t.len() && (a == 0 || t[a - 1] == '\n')
}

/// Whether `t` from `a` to `b` lies within one line and begins it.
pub open spec fn within_line(t: Seq<char>, a: int, b: int) -> bool {
    line_begins(t, a) && a <= b <= t.len() && chars::no_line_feed(t.subrange(a, b))
}

/// Whether no line of `t`, and no beginning of one, is a count summary.
pub open spec fn discreet(t: Seq<char>) -> bool {
    forall|a: int, b: int| #[trigger] within_line(t, a, b) ==> !is_count_summary(t.subrange(a, b))
}

/// Whether every character of `d` is a dot.
pub open spec fn dots(d: Seq<char>) -> bool {
    forall|i: int| 0 <= i < d.len() ==> #[trigger] d[i] == '.'
}

/// Whether `pat` holds a character and no dot.
pub open spec fn dotless(pat: Seq<char>) -> bool {
    pat.len() > 0 && forall|i: int| 0 <= i < pat.len() ==> #[trigger] pat[i] != '.'
}

/// What stands in a text that ends in dots, and holds none itself, stands
/// before the dots.
pub proof fn lemma_occurs_before_dots(p: Seq<char>, d: Seq<char>, pat: Seq<char>, at: int)
    requires
        dots(d),
        dotless(pat),
        chars::occurs_at(p + d, pat, at),
    ensures
        chars::occurs_at(p, pat, at),
{
    let whole = p + d;
    let found = whole.subrange(at, at + pat.len());
    if at + pat.len() > p.len() {
        let k = if at <= p.len() {
            p.len() - at
        } else {
            0
        };
        assert(found[k] == whole[at + k]);
        assert(whole[at + k] == d[at + k - p.len()]);
        assert(pat[k] != '.');
    } else {
        assert(p.subrange(at, at + pat.len()) =~= found);
    }
}

/// A text that turns into a count summary when dots follow it is one
/// already.
pub proof fn lemma_dots_make_no_summary(p: Seq<char>, d: Seq<char>)
    requires
        dots(d),
        is_count_summary(p + d),
    ensures
        is_count_summary(p),
{
    reveal_strlit("error[");
    reveal_strlit("error:");
    reveal_strlit("warning:");
    reveal_strlit("warning");
    reveal_strlit("generated");
    reveal_strlit("aborting due to");
    reveal_strlit("could not compile");
    let whole = p + d;
    if chars::starts_with(whole, "error["@) {
        lemma_occurs_before_dots(p, d, "error["@, 0);
    }
    if chars::starts_with(whole, "error:"@) {
        lemma_occurs_before_dots(p, d, "error:"@, 0);
    }
    if chars::starts_with(whole, "warning:"@) {
        lemma_occurs_before_dots(p, d, "warning:"@, 0);
    }
    if chars::contains(whole, "aborting due to"@) {
        let at = choose|at: int| chars::occurs_at(whole, "aborting due to"@, at);
        lemma_occurs_before_dots(p, d, "aborting due to"@, at);
    }
    if chars::contains(whole, "could not compile"@) {
        let at = choose|at: int| chars::occurs_at(whole, "could not compile"@, at);
        lemma_occurs_before_dots(p, d, "could not compile"@, at);
    }
    if chars::contains(whole, "generated"@) {
        let at = choose|at: int| chars::occurs_at(whole, "generated"@, at);
        lemma_occurs_before_dots(p, d, "generated"@, at);
    }
    if chars::contains(whole, "warning"@) {
        let at = choose|at: int| chars::occurs_at(whole, "warning"@, at);
        lemma_occurs_before_dots(p, d, "warning"@, at);
    }
}

/// A line that a summary may show is discreet.
pub proof fn lemma_presentable_is_discreet(line: Seq<char>)
    requires
        presentable(line),
    ensures
        discreet(line),
{
    assert forall|a: int, b: int| #[trigger] within_line(line, a, b) implies !is_count_summary(
        line.subrange(a, b),
    ) by {
        if is_count_summary(line.subrange(a, b)) {
            lemma_beginning_of_summary(line, b);
        }
    }
}

/// The beginning of a discreet text is discreet.
pub proof fn lemma_beginning_is_discreet(t: Seq<char>, len: int)
    requires
        discreet(t),
        0 <= len <= t.len(),
    ensures
        discreet(t.subrange(0, len)),
{
    let part = t.subrange(0, len);
    assert forall|a: int, b: int| #[trigger] within_line(part, a, b) implies !is_count_summary(
        part.subrange(a, b),
    ) by {
        assert(part.subrange(a, b) =~= t.subrange(a, b));
        if a > 0 {
            assert(part[a - 1] == t[a - 1]);
        }
        assert(within_line(t, a, b));
    }
}

/// A discreet text stays discreet when its last line ends.
pub proof fn lemma_ended_is_discreet(t: Seq<char>)
    requires
        discreet(t),
    ensures
        discreet(t.push('\n')),
{
    let ended = t.push('\n');
    assert forall|a: int, b: int| #[trigger] within_line(ended, a, b) implies !is_count_summary(
        ended.subrange(a, b),
    ) by {
        if b > t.len() {
            if a <= t.len() {
                assert(ended.subrange(a, b)[t.len() - a] == ended[t.len() as int]);
            } else {
                lemma_unmarked_is_no_summary(ended.subrange(a, b));
            }
        } else {
            assert(ended.subrange(a, b) =~= t.subrange(a, b));
            if a > 0 {
                assert(ended[a - 1] == t[a - 1]);
            }
            assert(within_line(t, a, b));
        }
    }
}

/// A discreet text behind one whose last line has ended makes a discreet
/// text with it.
pub proof fn lemma_lines_are_discreet(x: Seq<char>, y: Seq<char>)
    requires
        discreet(x),
        discreet(y),
        x.len() == 0 || x.last() == '\n',
    ensures
        discreet(x + y),
{
    let whole = x + y;
    assert forall|a: int, b: int| #[trigger] within_line(whole, a, b) implies !is_count_summary(
        whole.subrange(a, b),
    ) by {
        if a < x.len() {
            if b >= x.len() {
                assert(whole.subrange(a, b)[x.len() - 1 - a] == whole[x.len() - 1]);
                assert(whole[x.len() - 1] == x.last());
            }
            assert(whole.subrange(a, b) =~= x.subrange(a, b));
            if a > 0 {
                assert(whole[a - 1] == x[a - 1]);
            }
            assert(within_line(x, a, b));
        } else {
            assert(whole.subrange(a, b) =~= y.subrange(a - x.len(), b - x.len()));
            if a > x.len() {
                assert(whole[a - 1] == y[a - x.len() - 1]);
            }
            assert(within_line(y, a - x.len(), b - x.len()));
        }
    }
}

/// A discreet text followed by dots is discreet.
pub proof fn lemma_dotted_is_discreet(t: Seq<char>, d: Seq<char>)
    requires
        discreet(t),
        dots(d),
    ensures
        discreet(t + d),
{
    let whole = t + d;
    assert forall|a: int, b: int| #[trigger] within_line(whole, a, b) implies !is_count_summary(
        whole.subrange(a, b),
    ) by {
        if b <= t.len() {
            assert(whole.subrange(a, b) =~= t.subrange(a, b));
            if a > 0 {
                assert(whole[a - 1] == t[a - 1]);
            }
            assert(within_line(t, a, b));
        } else if a <= t.len() {
            let before = t.subrange(a, t.len() as int);
            let after = d.subrange(0, b - t.len());
            assert(whole.subrange(a, b) =~= before + after);
            assert(before =~= whole.subrange(a, b).subrange(0, t.len() - a));
            assert forall|i: int| 0 <= i < before.len() implies #[trigger] before[i] != '\n' by {
                assert(before[i] == whole.subrange(a, b)[i]);
            }
            if a > 0 {
                assert(whole[a - 1] == t[a - 1]);
            }
            assert(within_line(t, a, t.len() as int));
            if is_count_summary(before + after) {
                lemma_dots_make_no_summary(before, after);
            }
        } else {
            assert(whole[a - 1] == d[a - 1 - t.len()]);
        }
    }
}

/// A discreet text behind a label that holds no line feed and begins
/// unmarked is discreet.
pub proof fn lemma_labelled_is_discreet(label: Seq<char>, t: Seq<char>)
    requires
        label.len() > 0,
        unmarked(label),
        chars::no_line_feed(label),
        discreet(t),
    ensures
        discreet(label + t),
{
    let whole = label + t;
    assert forall|a: int, b: int| #[trigger] within_line(whole, a, b) implies !is_count_summary(
        whole.subrange(a, b),
    ) by {
        let part = whole.subrange(a, b);
        if a == 0 {
            if b > 0 {
                assert(part[0] == label[0]);
            }
            lemma_unmarked_is_no_summary(part);
        } else {
            if a - 1 < label.len() {
                assert(whole[a - 1] == label[a - 1]);
            }
            assert(part =~= t.subrange(a - label.len(), b - label.len()));
            if a > label.len() {
                assert(whole[a - 1] == t[a - 1 - label.len()]);
            }
            assert(within_line(t, a - label.len(), b - label.len()));
        }
    }
}

/// No line of a discreet text is a count summary.
pub proof fn lemma_discreet_lines(t: Seq<char>, from: int)
    requires
        discreet(t),
        line_begins(t, from),
    ensures
        forall|i: int|
            0 <= i < chars::lines_from(t, from).len() ==> !is_count_summary(
                #[trigger] chars::lines_from(t, from)[i],
            ),
    decreases t.len() + 1 - from,
{
    if from < t.len() {
        let end = chars::find_char(t, '\n', from);
        chars::lemma_find_char_bounds(t, '\n', from);
        let first = chars::line_at(t, from, end);
        let to = from + first.len();
        assert(first =~= t.subrange(from, to));
        assert forall|i: int| 0 <= i < first.len() implies #[trigger] first[i] != '\n' by {
            assert(first[i] == t[from + i]);
        }
        assert(within_line(t, from, to));
        let rest = chars::lines_from(t, end + 1);
        if end < t.len() {
            lemma_discreet_lines(t, end + 1);
        }
        assert forall|i: int| 0 <= i < chars::lines_from(t, from).len() implies !is_count_summary(
            #[trigger] chars::lines_from(t, from)[i],
        ) by {
            if i > 0 {
                assert(chars::lines_from(t, from)[i] == rest[i - 1]);
            }
        }
    }
}

/// Discreet lines, each ended by a line feed, make a discreet text.
pub proof fn lemma_unlines_is_discreet(layout: Seq<Seq<char>>)
    requires
        forall|k: int| 0 <= k < layout.len() ==> discreet(#[trigger] layout[k]),
    ensures
        discreet(chars::unlines(layout)),
        chars::unlines(layout).len() == 0 || chars::unlines(layout).last() == '\n',
    decreases layout.len(),
{
    if layout.len() == 0 {
        lemma_unmarked_is_no_summary(Seq::empty());
        lemma_presentable_is_discreet(Seq::empty());
    } else {
        let head = layout.drop_last();
        assert forall|k: int| 0 <= k < head.len() implies discreet(#[trigger] head[k]) by {
            assert(head[k] == layout[k]);
        }
        lemma_unlines_is_discreet(head);
        assert(discreet(layout[layout.len() - 1]));
        lemma_lines_are_discreet(chars::unlines(head), layout.last());
        lemma_ended_is_discreet(chars::unlines(head) + layout.last());
        assert(chars::unlines(layout) =~= (chars::unlines(head) + layout.last()).push('\n'));
    }
}

/// Discreet lines with a line feed between each two make a discreet text.
pub proof fn lemma_joined_is_discreet(lines: Seq<Seq<char>>)
    requires
        forall|k: int| 0 <= k < lines.len() ==> discreet(#[trigger] lines[k]),
    ensures
        discreet(chars::join_lines(lines)),
    decreases lines.len(),
{
    if lines.len() == 0 {
        lemma_unmarked_is_no_summary(Seq::empty());
        lemma_presentable_is_discreet(Seq::empty());
    } else if lines.len() == 1 {
        assert(discreet(lines[0]));
    } else {
        let head = lines.drop_last();
        assert forall|k: int| 0 <= k < head.len() implies discreet(#[trigger] head[k]) by {
            assert(head[k] == lines[k]);
        }
        lemma_joined_is_discreet(head);
        assert(discreet(lines[lines.len() - 1]));
        lemma_ended_is_discreet(chars::join_lines(head));
        lemma_lines_are_discreet(chars::join_lines(head).push('\n'), lines.last());
        assert(chars::join_lines(lines) =~= chars::join_lines(head).push('\n') + lines.last());
    }
}

/// Whether every entry of the layout is discreet.
pub open spec fn layout_discreet(layout: Seq<Seq<char>>) -> bool {
    forall|k: int| 0 <= k < layout.len() ==> discreet(#[trigger] layout[k])
}

/// Two discreet layouts in a row are discreet.
pub proof fn lemma_layouts_discreet(a: Seq<Seq<char>>, b: Seq<Seq<char>>)
    requires
        layout_discreet(a),
        layout_discreet(b),
    ensures
        layout_discreet(a + b),
{
    assert forall|i: int| 0 <= i < (a + b).len() implies discreet(#[trigger] (a + b)[i]) by {
        if i < a.len() {
            assert(discreet(a[i]));
        } else {
            assert(discreet(b[i - a.len()]));
        }
    }
}

/// A plain layout is discreet.
pub proof fn lemma_plain_is_discreet(layout: Seq<Seq<char>>)
    requires
        layout_plain(layout),
    ensures
        layout_discreet(layout),
{
    assert forall|k: int| 0 <= k < layout.len() implies discreet(#[trigger] layout[k]) by {
        assert(plain(layout[k]));
        lemma_unmarked_is_no_summary(layout[k]);
        lemma_presentable_is_discreet(layout[k]);
    }
}

/// A text cut to a width is discreet when the whole is.
pub proof fn lemma_truncated_is_discreet(t: Seq<char>, max: int)
    requires
        discreet(t),
    ensures
        discreet(chars::truncate(t, max)),
{
    reveal_strlit("...");
    if t.len() > max {
        if max < 3 {
            lemma_beginning_is_discreet(t, 0);
            lemma_dotted_is_discreet(t.subrange(0, 0), "..."@);
            assert(t.subrange(0, 0) + "..."@ =~= "..."@);
        } else {
            lemma_beginning_is_discreet(t, max - 3);
            lemma_dotted_is_discreet(t.subrange(0, max - 3), "..."@);
        }
    }
}

/// Where `a` stops skipping whitespace before its end, a text that begins
/// with `a` stops at the same place.
pub proof fn lemma_skip_whitespace_agrees(a: Seq<char>, b: Seq<char>, from: int)
    requires
        0 <= from <= a.len() <= b.len(),
        forall|i: int| 0 <= i < a.len() ==> a[i] == b[i],
        chars::skip_whitespace(a, from) < a.len(),
    ensures
        chars::skip_whitespace(b, from) == chars::skip_whitespace(a, from),
    decreases a.len() - from,
{
    if from < a.len() && chars::is_whitespace(a[from]) {
        lemma_skip_whitespace_agrees(a, b, from + 1);
    }
}

/// `layout` with its first line from index `k` on.
pub open spec fn from_index(layout: Seq<Seq<char>>, k: int) -> Seq<Seq<char>> {
    layout.update(0, layout[0].subrange(k, layout[0].len() as int))
}

/// Taking the first `k` characters from the first line takes them from the
/// text.
pub proof fn lemma_unlines_from_index(layout: Seq<Seq<char>>, k: int)
    requires
        layout.len() > 0,
        0 <= k <= layout[0].len(),
    ensures
        k <= chars::unlines(layout).len(),
        chars::unlines(from_index(layout, k)) == chars::unlines(layout).subrange(
            k,
            chars::unlines(layout).len() as int,
        ),
    decreases layout.len(),
{
    let rest = from_index(layout, k);
    if layout.len() == 1 {
        assert(layout.drop_last() =~= Seq::empty());
        assert(rest.drop_last() =~= Seq::empty());
        assert(chars::unlines(rest) =~= chars::unlines(layout).subrange(
            k,
            chars::unlines(layout).len() as int,
        ));
    } else {
        let head = layout.drop_last();
        lemma_unlines_from_index(head, k);
        assert(rest.drop_last() =~= from_index(head, k));
        assert(rest.last() == layout.last());
        assert(chars::unlines(rest) =~= chars::unlines(layout).subrange(
            k,
            chars::unlines(layout).len() as int,
        ));
    }
}

/// The text of a layout whose first line is not blank is the text of the
/// layout with that line begun at its first character that is no
/// whitespace.
pub proof fn lemma_rendered_from_first_mark(layout: Seq<Seq<char>>)
    requires
        layout.len() > 0,
        !chars::is_blank(layout[0]),
    ensures
        0 <= chars::skip_whitespace(layout[0], 0) < layout[0].len(),
        begins_visibly(from_index(layout, chars::skip_whitespace(layout[0], 0))),
        rendered(layout) == rendered(from_index(layout, chars::skip_whitespace(layout[0], 0))),
{
    let first = layout[0];
    let k = chars::skip_whitespace(first, 0);
    chars::lemma_skip_whitespace_bounds(first, 0);
    let whole = chars::unlines(layout);
    assert(layout.take(0) =~= Seq::empty());
    chars::lemma_unlines_holds_line(layout, 0);
    assert forall|i: int| 0 <= i < first.len() implies first[i] == whole[i] by {
        assert(whole[chars::line_start(layout, 0) + i] == first[i]);
    }
    lemma_skip_whitespace_agrees(first, whole, 0);
    lemma_unlines_from_index(layout, k);
    let rest = from_index(layout, k);
    assert(rest[0][0] == first[k]);
    lemma_rendered_is_beginning(rest);
    assert(chars::trim_start(whole) == chars::unlines(rest));
}

/// No line of the text of a layout is a count summary, when the layout
/// begins visibly and each of its entries is discreet.
pub proof fn lemma_rendered_is_discreet(layout: Seq<Seq<char>>)
    requires
        begins_visibly(layout),
        layout_discreet(layout),
    ensures
        forall|i: int|
            0 <= i < chars::lines(rendered(layout)).len() ==> !is_count_summary(
                #[trigger] chars::lines(rendered(layout))[i],
            ),
{
    lemma_rendered_is_beginning(layout);
    lemma_unlines_is_discreet(layout);
    let whole = chars::unlines(layout);
    let len = chars::skip_whitespace_back(whole, whole.len() as int);
    lemma_beginning_is_discreet(whole, len);
    lemma_discreet_lines(rendered(layout), 0);
}

} // verus!
