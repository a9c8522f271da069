//! The lines that a test summary leaves out (progress, the announcement of
//! a run, the tests that passed), and what keeps them out of a text that
//! is joined of lines, cut and shown.

use crate::chars;
use crate::classify::{begins_with, lemma_start_of_beginning};
use crate::passage::{
    dots, lemma_occurs_before_dots, lemma_skip_whitespace_agrees, line_begins, within_line,
};
use crate::render::{begins_visibly, lemma_rendered_is_beginning, rendered};
use crate::test_report::{is_passing, is_progress};
use vstd::prelude::*;

verus! {

/// Whether a test summary leaves the line out wherever it stands: it
/// reports progress, announces a run of tests or reports a test that
/// passed.
pub open spec fn is_noise(line: Seq<char>) -> bool {
    is_progress(line) || is_passing(line)
}

/// Whether the line is noise by how it begins: it reports progress or
/// announces a run of tests.
pub open spec fn announces(line: Seq<char>) -> bool {
    is_progress(line) || chars::starts_with(line, "running "@)
}

/// Whether the line begins as no noise does: it is empty, or begins with
/// a character that is no whitespace and none of `C`, `D`, `r`, `t`, and
/// not with `Fi`.
pub open spec fn unobtrusive(line: Seq<char>) -> bool {
    line.len() == 0 || (!chars::is_whitespace(line[0]) && line[0] != 'C' && line[0] != 'D'
        && line[0] != 'r' && line[0] != 't' && (line[0] == 'F' && line.len() > 1 ==> line[1]
        != 'i'))
}

/// Whether `t` from `a` to `b` is a line of `t` that ends at `e`, without
/// some or all of the whitespace at its end.
pub open spec fn shown_line(t: Seq<char>, a: int, b: int, e: int) -> bool {
    &&& within_line(t, a, e)
    &&& a <= b <= e
    &&& (e == t.len() || t[e] == '\n')
    &&& chars::is_blank(t.subrange(b, e))
}

/// Whether no line of `t` is noise, with or without the whitespace at its
/// end.
pub open spec fn quiet(t: Seq<char>) -> bool {
    forall|a: int, b: int, e: int| #[trigger]
        shown_line(t, a, b, e) ==> !is_noise(t.subrange(a, b))
}

/// Whether every entry of the layout is quiet.
pub open spec fn layout_quiet(layout: Seq<Seq<char>>) -> bool {
    forall|k: int| 0 <= k < layout.len() ==> quiet(#[trigger] layout[k])
}

/// A line that begins with a word after its leading whitespace has that
/// word at its first character that is no whitespace.
pub proof fn lemma_begins_with_word(line: Seq<char>, word: Seq<char>)
    requires
        begins_with(line, word),
        word.len() > 0,
    ensures
        0 <= chars::skip_whitespace(line, 0) < line.len(),
        line[chars::skip_whitespace(line, 0)] == word[0],
        chars::occurs_at(line, word, chars::skip_whitespace(line, 0)),
{
    let k = chars::skip_whitespace(line, 0);
    chars::lemma_skip_whitespace_bounds(line, 0);
    let rest = chars::trim_start(line);
    assert(rest.subrange(0, word.len() as int)[0] == rest[0]);
    assert(line.subrange(k, k + word.len()) =~= rest.subrange(0, word.len() as int));
}

/// An unobtrusive line is no noise.
pub proof fn lemma_unobtrusive_is_no_noise(line: Seq<char>)
    requires
        unobtrusive(line),
    ensures
        !is_noise(line),
{
    reveal_strlit("Compiling");
    reveal_strlit("Downloading");
    reveal_strlit("Downloaded");
    reveal_strlit("Finished");
    reveal_strlit("running ");
    reveal_strlit("test ");
    if line.len() > 0 {
        assert(chars::skip_whitespace(line, 0) == 0);
    }
    if begins_with(line, "Compiling"@) {
        lemma_begins_with_word(line, "Compiling"@);
    }
    if begins_with(line, "Downloading"@) {
        lemma_begins_with_word(line, "Downloading"@);
    }
    if begins_with(line, "Downloaded"@) {
        lemma_begins_with_word(line, "Downloaded"@);
    }
    if begins_with(line, "Finished"@) {
        lemma_begins_with_word(line, "Finished"@);
        assert(line.subrange(0, "Finished"@.len() as int)[1] == "Finished"@[1]);
    }
    if chars::starts_with(line, "running "@) {
        assert(line.subrange(0, "running "@.len() as int)[0] == "running "@[0]);
    }
    if chars::starts_with(line, "test "@) {
        assert(line.subrange(0, "test "@.len() as int)[0] == "test "@[0]);
    }
}

/// A line whose beginning begins with a word, after its leading
/// whitespace, begins with it too.
pub proof fn lemma_word_of_beginning(line: Seq<char>, to: int, word: Seq<char>)
    requires
        0 <= to <= line.len(),
        word.len() > 0,
        begins_with(line.subrange(0, to), word),
    ensures
        begins_with(line, word),
{
    let part = line.subrange(0, to);
    lemma_begins_with_word(part, word);
    let k = chars::skip_whitespace(part, 0);
    lemma_skip_whitespace_agrees(part, line, 0);
    assert(chars::trim_start(line).subrange(0, word.len() as int) =~= part.subrange(
        k,
        k + word.len(),
    ));
}

/// A line whose beginning announces something announces it too.
pub proof fn lemma_beginning_announces(line: Seq<char>, to: int)
    requires
        0 <= to <= line.len(),
        announces(line.subrange(0, to)),
    ensures
        announces(line),
{
    reveal_strlit("Compiling");
    reveal_strlit("Downloading");
    reveal_strlit("Downloaded");
    reveal_strlit("Finished");
    let part = line.subrange(0, to);
    if begins_with(part, "Compiling"@) {
        lemma_word_of_beginning(line, to, "Compiling"@);
    }
    if begins_with(part, "Downloading"@) {
        lemma_word_of_beginning(line, to, "Downloading"@);
    }
    if begins_with(part, "Downloaded"@) {
        lemma_word_of_beginning(line, to, "Downloaded"@);
    }
    if begins_with(part, "Finished"@) {
        lemma_word_of_beginning(line, to, "Finished"@);
    }
    if chars::starts_with(part, "running "@) {
        lemma_start_of_beginning(line, to, "running "@);
    }
}

/// A text that begins with a word, after its leading whitespace, when dots
/// follow it, begins with it already, if the word holds no dot.
pub proof fn lemma_word_before_dots(p: Seq<char>, d: Seq<char>, word: Seq<char>)
    requires
        dots(d),
        crate::passage::dotless(word),
        begins_with(p + d, word),
    ensures
        begins_with(p, word),
{
    let whole = p + d;
    lemma_begins_with_word(whole, word);
    let k = chars::skip_whitespace(whole, 0);
    chars::lemma_skip_whitespace_bounds(p, 0);
    let j = chars::skip_whitespace(p, 0);
    if j < p.len() {
        assert forall|i: int| 0 <= i < p.len() implies p[i] == whole[i] by {}
        lemma_skip_whitespace_agrees(p, whole, 0);
        assert(chars::trim_start(whole) =~= chars::trim_start(p) + d);
        lemma_occurs_before_dots(chars::trim_start(p), d, word, 0);
    } else {
        chars::lemma_skip_whitespace_bounds(whole, 0);
        if k < p.len() {
            assert(whole[k] == p[k]);
        } else {
            assert(whole[k] == d[k - p.len()]);
            assert(word[0] != '.');
        }
    }
}

/// A text that announces something when dots follow it announces it
/// already.
pub proof fn lemma_announces_before_dots(p: Seq<char>, d: Seq<char>)
    requires
        dots(d),
        announces(p + d),
    ensures
        announces(p),
{
    reveal_strlit("Compiling");
    reveal_strlit("Downloading");
    reveal_strlit("Downloaded");
    reveal_strlit("Finished");
    reveal_strlit("running ");
    let whole = p + d;
    if begins_with(whole, "Compiling"@) {
        lemma_word_before_dots(p, d, "Compiling"@);
    }
    if begins_with(whole, "Downloading"@) {
        lemma_word_before_dots(p, d, "Downloading"@);
    }
    if begins_with(whole, "Downloaded"@) {
        lemma_word_before_dots(p, d, "Downloaded"@);
    }
    if begins_with(whole, "Finished"@) {
        lemma_word_before_dots(p, d, "Finished"@);
    }
    if chars::starts_with(whole, "running "@) {
        lemma_occurs_before_dots(p, d, "running "@, 0);
    }
}

/// Noise that announces nothing ends with the letter `k`.
pub proof fn lemma_passed_test_ends(line: Seq<char>)
    requires
        is_noise(line),
        !announces(line),
    ensures
        line.len() > 0,
        line.last() == 'k',
{
    reveal_strlit("... ok");
    let end = "... ok"@;
    assert(line.subrange(line.len() - end.len(), line.len() as int)[end.len() - 1] == end[end.len()
        - 1]);
}

/// An unobtrusive line without line feed is quiet.
pub proof fn lemma_unobtrusive_is_quiet(line: Seq<char>)
    requires
        unobtrusive(line),
        chars::no_line_feed(line),
    ensures
        quiet(line),
{
    assert forall|a: int, b: int, e: int| #[trigger] shown_line(line, a, b, e) implies !is_noise(
        line.subrange(a, b),
    ) by {
        let part = line.subrange(a, b);
        if b > a {
            assert(part[0] == line[a]);
        }
        if b > a + 1 {
            assert(part[1] == line[a + 1]);
        }
        lemma_unobtrusive_is_no_noise(part);
    }
}

/// A line without line feed is quiet when it is no noise and no test that
/// passed once the whitespace at its end is gone.
pub proof fn lemma_line_is_quiet(line: Seq<char>)
    requires
        chars::no_line_feed(line),
        !is_noise(line),
        !is_passing(chars::trim_end(line)),
    ensures
        quiet(line),
{
    assert forall|a: int, b: int, e: int| #[trigger] shown_line(line, a, b, e) implies !is_noise(
        line.subrange(a, b),
    ) by {
        let part = line.subrange(a, b);
        if is_noise(part) {
            if announces(part) {
                lemma_beginning_announces(line, b);
            } else {
                lemma_passed_test_ends(part);
                assert(part[b - 1] == line[b - 1]);
                chars::lemma_skip_whitespace_back_bounds(line, line.len() as int);
                let r = chars::skip_whitespace_back(line, line.len() as int);
                if r < b {
                    assert(chars::is_whitespace(line[b - 1]));
                }
                if r > b {
                    assert(line.subrange(b, e)[r - 1 - b] == line[r - 1]);
                }
                assert(part == chars::trim_end(line));
            }
        }
    }
}

/// The beginning of a quiet text is quiet, when only whitespace follows
/// it.
pub proof fn lemma_beginning_is_quiet(t: Seq<char>, len: int)
    requires
        quiet(t),
        0 <= len <= t.len(),
        forall|i: int| len <= i < t.len() ==> chars::is_whitespace(t[i]),
    ensures
        quiet(t.subrange(0, len)),
{
    let part = t.subrange(0, len);
    assert forall|a: int, b: int, e: int| #[trigger] shown_line(part, a, b, e) implies !is_noise(
        part.subrange(a, b),
    ) by {
        assert(part.subrange(a, b) =~= t.subrange(a, b));
        if a > 0 {
            assert(part[a - 1] == t[a - 1]);
        }
        chars::lemma_find_char_bounds(t, '\n', e);
        let end = if e < len {
            e
        } else {
            chars::find_char(t, '\n', e)
        };
        if e < len {
            assert(part[e] == t[e]);
        }
        assert forall|i: int| 0 <= i < end - a implies #[trigger] t.subrange(a, end)[i] != '\n' by {
            if a + i < e {
                assert(part.subrange(a, e)[i] == t[a + i]);
            }
        }
        assert forall|i: int| 0 <= i < end - b implies chars::is_whitespace(
            #[trigger] t.subrange(b, end)[i],
        ) by {
            if b + i < e {
                assert(part.subrange(b, e)[i] == t[b + i]);
            }
        }
        assert(shown_line(t, a, b, end));
    }
}

/// A quiet text stays quiet when its last line ends.
pub proof fn lemma_ended_is_quiet(t: Seq<char>)
    requires
        quiet(t),
    ensures
        quiet(t.push('\n')),
{
    let ended = t.push('\n');
    assert forall|a: int, b: int, e: int| #[trigger] shown_line(ended, a, b, e) implies !is_noise(
        ended.subrange(a, b),
    ) by {
        if e > t.len() {
            if a <= t.len() {
                assert(ended.subrange(a, e)[t.len() - a] == ended[t.len() as int]);
            } else {
                lemma_unobtrusive_is_no_noise(ended.subrange(a, b));
            }
        } else {
            assert(ended.subrange(a, b) =~= t.subrange(a, b));
            assert(ended.subrange(a, e) =~= t.subrange(a, e));
            assert(ended.subrange(b, e) =~= t.subrange(b, e));
            if a > 0 {
                assert(ended[a - 1] == t[a - 1]);
            }
            if e < t.len() {
                assert(ended[e] == t[e]);
            }
            assert(shown_line(t, a, b, e));
        }
    }
}

/// A quiet text behind one whose last line has ended makes a quiet text
/// with it.
pub proof fn lemma_lines_are_quiet(x: Seq<char>, y: Seq<char>)
    requires
        quiet(x),
        quiet(y),
        x.len() == 0 || x.last() == '\n',
    ensures
        quiet(x + y),
{
    let whole = x + y;
    let n = x.len() as int;
    assert forall|a: int, b: int, e: int| #[trigger] shown_line(whole, a, b, e) implies !is_noise(
        whole.subrange(a, b),
    ) by {
        if a < n {
            if e >= n {
                assert(whole.subrange(a, e)[n - 1 - a] == whole[n - 1]);
                assert(whole[n - 1] == x.last());
            }
            assert(whole.subrange(a, b) =~= x.subrange(a, b));
            assert(whole.subrange(a, e) =~= x.subrange(a, e));
            assert(whole.subrange(b, e) =~= x.subrange(b, e));
            if a > 0 {
                assert(whole[a - 1] == x[a - 1]);
            }
            assert(whole[e] == x[e]);
            assert(shown_line(x, a, b, e));
        } else {
            assert(whole.subrange(a, b) =~= y.subrange(a - n, b - n));
            assert(whole.subrange(a, e) =~= y.subrange(a - n, e - n));
            assert(whole.subrange(b, e) =~= y.subrange(b - n, e - n));
            if a > n {
                assert(whole[a - 1] == y[a - n - 1]);
            }
            if e < whole.len() {
                assert(whole[e] == y[e - n]);
            }
            assert(shown_line(y, a - n, b - n, e - n));
        }
    }
}

/// A quiet text behind a label that holds no line feed and begins with a
/// digit is quiet.
pub proof fn lemma_labelled_is_quiet(label: Seq<char>, t: Seq<char>)
    requires
        label.len() > 0,
        '0' <= label[0] <= '9',
        chars::no_line_feed(label),
        quiet(t),
    ensures
        quiet(label + t),
{
    let whole = label + t;
    let n = label.len() as int;
    assert forall|a: int, b: int, e: int| #[trigger] shown_line(whole, a, b, e) implies !is_noise(
        whole.subrange(a, b),
    ) by {
        let part = whole.subrange(a, b);
        if a == 0 {
            if b > 0 {
                assert(part[0] == label[0]);
            }
            lemma_unobtrusive_is_no_noise(part);
        } else {
            if a - 1 < n {
                assert(whole[a - 1] == label[a - 1]);
            }
            assert(part =~= t.subrange(a - n, b - n));
            assert(whole.subrange(a, e) =~= t.subrange(a - n, e - n));
            assert(whole.subrange(b, e) =~= t.subrange(b - n, e - n));
            if a > n {
                assert(whole[a - 1] == t[a - 1 - n]);
            }
            if e < whole.len() {
                assert(whole[e] == t[e - n]);
            }
            assert(shown_line(t, a - n, b - n, e - n));
        }
    }
}

/// The beginning of a quiet text, followed by dots, is quiet.
pub proof fn lemma_dotted_is_quiet(t: Seq<char>, k: int, d: Seq<char>)
    requires
        quiet(t),
        0 <= k <= t.len(),
        dots(d),
        d.len() > 0,
    ensures
        quiet(t.subrange(0, k) + d),
{
    let whole = t.subrange(0, k) + d;
    assert forall|a: int, b: int, e: int| #[trigger] shown_line(whole, a, b, e) implies !is_noise(
        whole.subrange(a, b),
    ) by {
        let part = whole.subrange(a, b);
        if e < k {
            assert(part =~= t.subrange(a, b));
            assert(whole.subrange(a, e) =~= t.subrange(a, e));
            assert(whole.subrange(b, e) =~= t.subrange(b, e));
            if a > 0 {
                assert(whole[a - 1] == t[a - 1]);
            }
            assert(whole[e] == t[e]);
            assert(shown_line(t, a, b, e));
        } else {
            if e < whole.len() {
                assert(whole[e] == d[e - k]);
            }
            if b < e {
                assert(whole.subrange(b, e)[e - 1 - b] == whole[e - 1]);
                assert(whole[e - 1] == d[e - 1 - k]);
            }
            if a > k {
                assert(whole[a - 1] == d[a - 1 - k]);
            }
            let before = t.subrange(a, k);
            assert(part =~= before + d);
            assert(part.last() == d[d.len() - 1]);
            if is_noise(part) {
                if announces(part) {
                    lemma_announces_before_dots(before, d);
                    chars::lemma_find_char_bounds(t, '\n', k);
                    let end = chars::find_char(t, '\n', k);
                    let line = t.subrange(a, end);
                    assert(before =~= line.subrange(0, k - a));
                    lemma_beginning_announces(line, k - a);
                    if a > 0 {
                        assert(whole[a - 1] == t[a - 1]);
                    }
                    assert forall|i: int| 0 <= i < line.len() implies #[trigger] line[i]
                        != '\n' by {
                        if a + i < k {
                            assert(whole.subrange(a, e)[i] == t[a + i]);
                        }
                    }
                    assert(t.subrange(end, end) =~= Seq::<char>::empty());
                    assert(shown_line(t, a, end, end));
                } else {
                    lemma_passed_test_ends(part);
                }
            }
        }
    }
}

/// A text cut to a width is quiet when the whole is.
pub proof fn lemma_truncated_is_quiet(t: Seq<char>, max: int)
    requires
        quiet(t),
    ensures
        quiet(chars::truncate(t, max)),
{
    reveal_strlit("...");
    if t.len() > max {
        if max < 3 {
            lemma_dotted_is_quiet(t, 0, "..."@);
            assert(t.subrange(0, 0) + "..."@ =~= "..."@);
        } else {
            lemma_dotted_is_quiet(t, max - 3, "..."@);
        }
    }
}

/// No line of a quiet text is noise.
pub proof fn lemma_quiet_lines(t: Seq<char>, from: int)
    requires
        quiet(t),
        line_begins(t, from),
    ensures
        forall|i: int|
            0 <= i < chars::lines_from(t, from).len() ==> !is_noise(
                #[trigger] chars::lines_from(t, from)[i],
            ),
    decreases t.len() + 1 - from,
{
    if from < t.len() {
        let end = chars::find_char(t, '\n', from);
        chars::lemma_find_char_bounds(t, '\n', from);
        let first = chars::line_at(t, from, end);
        let to = from + first.len();
        assert(first =~= t.subrange(from, to));
        assert forall|i: int| 0 <= i < end - from implies #[trigger] t.subrange(from, end)[i]
            != '\n' by {
            assert(t.subrange(from, end)[i] == t[from + i]);
        }
        assert forall|i: int| 0 <= i < end - to implies chars::is_whitespace(
            #[trigger] t.subrange(to, end)[i],
        ) by {
            assert(t.subrange(to, end)[i] == t[to + i]);
        }
        assert(shown_line(t, from, to, end));
        let rest = chars::lines_from(t, end + 1);
        if end < t.len() {
            lemma_quiet_lines(t, end + 1);
        }
        assert forall|i: int| 0 <= i < chars::lines_from(t, from).len() implies !is_noise(
            #[trigger] chars::lines_from(t, from)[i],
        ) by {
            if i > 0 {
                assert(chars::lines_from(t, from)[i] == rest[i - 1]);
            }
        }
    }
}

/// Quiet lines, each ended by a line feed, make a quiet text.
pub proof fn lemma_unlines_is_quiet(layout: Seq<Seq<char>>)
    requires
        layout_quiet(layout),
    ensures
        quiet(chars::unlines(layout)),
        chars::unlines(layout).len() == 0 || chars::unlines(layout).last() == '\n',
    decreases layout.len(),
{
    if layout.len() == 0 {
        lemma_unobtrusive_is_quiet(Seq::empty());
    } else {
        let head = layout.drop_last();
        assert forall|k: int| 0 <= k < head.len() implies quiet(#[trigger] head[k]) by {
            assert(head[k] == layout[k]);
        }
        lemma_unlines_is_quiet(head);
        assert(quiet(layout[layout.len() - 1]));
        lemma_lines_are_quiet(chars::unlines(head), layout.last());
        lemma_ended_is_quiet(chars::unlines(head) + layout.last());
        assert(chars::unlines(layout) =~= (chars::unlines(head) + layout.last()).push('\n'));
    }
}

/// Quiet lines with a line feed between each two make a quiet text.
pub proof fn lemma_joined_is_quiet(lines: Seq<Seq<char>>)
    requires
        layout_quiet(lines),
    ensures
        quiet(chars::join_lines(lines)),
    decreases lines.len(),
{
    if lines.len() == 0 {
        lemma_unobtrusive_is_quiet(Seq::empty());
    } else if lines.len() == 1 {
        assert(quiet(lines[0]));
    } else {
        let head = lines.drop_last();
        assert forall|k: int| 0 <= k < head.len() implies quiet(#[trigger] head[k]) by {
            assert(head[k] == lines[k]);
        }
        lemma_joined_is_quiet(head);
        assert(quiet(lines[lines.len() - 1]));
        lemma_ended_is_quiet(chars::join_lines(head));
        lemma_lines_are_quiet(chars::join_lines(head).push('\n'), lines.last());
        assert(chars::join_lines(lines) =~= chars::join_lines(head).push('\n') + lines.last());
    }
}

/// Two quiet layouts in a row are quiet.
pub proof fn lemma_layouts_quiet(a: Seq<Seq<char>>, b: Seq<Seq<char>>)
    requires
        layout_quiet(a),
        layout_quiet(b),
    ensures
        layout_quiet(a + b),
{
    assert forall|i: int| 0 <= i < (a + b).len() implies quiet(#[trigger] (a + b)[i]) by {
        if i < a.len() {
            assert(quiet(a[i]));
        } else {
            assert(quiet(b[i - a.len()]));
        }
    }
}

/// No line of the text of a layout is noise, when the layout begins
/// visibly and each of its entries is quiet.
pub proof fn lemma_rendered_is_quiet(layout: Seq<Seq<char>>)
    requires
        begins_visibly(layout),
        layout_quiet(layout),
    ensures
        forall|i: int|
            0 <= i < chars::lines(rendered(layout)).len() ==> !is_noise(
                #[trigger] chars::lines(rendered(layout))[i],
            ),
{
    lemma_rendered_is_beginning(layout);
    lemma_unlines_is_quiet(layout);
    let whole = chars::unlines(layout);
    let len = chars::skip_whitespace_back(whole, whole.len() as int);
    chars::lemma_skip_whitespace_back_bounds(whole, whole.len() as int);
    lemma_beginning_is_quiet(whole, len);
    lemma_quiet_lines(rendered(layout), 0);
}

} // verus!
