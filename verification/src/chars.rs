//! The mathematical vocabulary of the library: text as `Seq<char>`, lines as
//! `Seq<Seq<char>>`, and the operations on them that the summaries are
//! stated in. Everything here is ghost code; `text` holds the executable
//! counterparts.

use vstd::prelude::*;

verus! {

/// The texts that a vector of character vectors holds.
pub open spec fn views(ls: Seq<Vec<char>>) -> Seq<Seq<char>> {
    Seq::new(ls.len(), |i: int| ls[i]@)
}

/// Whether `c` has the Unicode property `White_Space`.
pub open spec fn is_whitespace(c: char) -> bool {
    let u = c as u32;
    ||| 0x09 <= u <= 0x0D
    ||| u == 0x20
    ||| u == 0x85
    ||| u == 0xA0
    ||| u == 0x1680
    ||| 0x2000 <= u <= 0x200A
    ||| u == 0x2028
    ||| u == 0x2029
    ||| u == 0x202F
    ||| u == 0x205F
    ||| u == 0x3000
}

/// Whether every character of `s` is whitespace (so the empty text is blank).
pub open spec fn is_blank(s: Seq<char>) -> bool {
    forall|i: int| 0 <= i < s.len() ==> is_whitespace(#[trigger] s[i])
}

/// The first index at or after `from` whose character is not whitespace, or
/// the length of `s` when only whitespace follows.
pub open spec fn skip_whitespace(s: Seq<char>, from: int) -> int
    decreases s.len() - from,
{
    if 0 <= from < s.len() && is_whitespace(s[from]) {
        skip_whitespace(s, from + 1)
    } else {
        from
    }
}

/// The index at which the run of whitespace that ends right before `end`
/// begins.
pub open spec fn skip_whitespace_back(s: Seq<char>, end: int) -> int
    decreases end,
{
    if 0 < end <= s.len() && is_whitespace(s[end - 1]) {
        skip_whitespace_back(s, end - 1)
    } else {
        end
    }
}

/// The first index at or after `from` whose character is whitespace, or the
/// length of `s`.
pub open spec fn find_whitespace(s: Seq<char>, from: int) -> int
    decreases s.len() - from,
{
    if 0 <= from < s.len() && !is_whitespace(s[from]) {
        find_whitespace(s, from + 1)
    } else {
        from
    }
}

/// The first index at or after `from` that holds `c`, or the length of `s`.
pub open spec fn find_char(s: Seq<char>, c: char, from: int) -> int
    decreases s.len() - from,
{
    if 0 <= from < s.len() && s[from] != c {
        find_char(s, c, from + 1)
    } else {
        from
    }
}

/// The last index before `end` that holds `c`, or -1.
pub open spec fn rfind_char(s: Seq<char>, c: char, end: int) -> int
    decreases end,
{
    if 0 < end <= s.len() {
        if s[end - 1] == c {
            end - 1
        } else {
            rfind_char(s, c, end - 1)
        }
    } else {
        -1
    }
}

/// `s` without its leading whitespace.
pub open spec fn trim_start(s: Seq<char>) -> Seq<char> {
    s.subrange(skip_whitespace(s, 0), s.len() as int)
}

/// `s` without its trailing whitespace.
pub open spec fn trim_end(s: Seq<char>) -> Seq<char> {
    s.subrange(0, skip_whitespace_back(s, s.len() as int))
}

/// `s` without leading and trailing whitespace.
pub open spec fn trim(s: Seq<char>) -> Seq<char> {
    trim_end(trim_start(s))
}

/// Whether `pat` stands in `s` at index `i`.
pub open spec fn occurs_at(s: Seq<char>, pat: Seq<char>, i: int) -> bool {
    &&& 0 <= i
    &&& i + pat.len() <= s.len()
    &&& s.subrange(i, i + pat.len()) == pat
}

/// Whether `s` begins with `pat`.
pub open spec fn starts_with(s: Seq<char>, pat: Seq<char>) -> bool {
    occurs_at(s, pat, 0)
}

/// Whether `s` ends with `pat`.
pub open spec fn ends_with(s: Seq<char>, pat: Seq<char>) -> bool {
    occurs_at(s, pat, s.len() - pat.len())
}

/// Whether `pat` stands somewhere in `s`.
pub open spec fn contains(s: Seq<char>, pat: Seq<char>) -> bool {
    exists|i: int| occurs_at(s, pat, i)
}

/// `s` from index `from` on, or from its end when `from` lies outside.
pub open spec fn tail(s: Seq<char>, from: int) -> Seq<char> {
    if 0 <= from <= s.len() {
        s.subrange(from, s.len() as int)
    } else {
        Seq::empty()
    }
}

/// The line of `s` that begins at `from` and whose end (a line feed, or the
/// end of the text) is at `end`. A carriage return right before the line
/// feed belongs to the line ending.
pub open spec fn line_at(s: Seq<char>, from: int, end: int) -> Seq<char> {
    if from < end < s.len() && s[end - 1] == '\r' {
        s.subrange(from, end - 1)
    } else {
        s.subrange(from, end)
    }
}

/// The lines of `s` from index `from` on.
pub open spec fn lines_from(s: Seq<char>, from: int) -> Seq<Seq<char>>
    decreases s.len() + 1 - from,
    via lines_from_decreases
{
    if 0 <= from < s.len() {
        let end = find_char(s, '\n', from);
        seq![line_at(s, from, end)] + lines_from(s, end + 1)
    } else {
        Seq::empty()
    }
}

#[via_fn]
proof fn lines_from_decreases(s: Seq<char>, from: int) {
    if 0 <= from < s.len() {
        lemma_find_char_bounds(s, '\n', from);
    }
}

/// The lines of a text. Lines end at a line feed or at a carriage return
/// followed by a line feed; the ending is not part of the line, and the last
/// line needs none.
pub open spec fn lines(s: Seq<char>) -> Seq<Seq<char>> {
    lines_from(s, 0)
}

/// Each line followed by a line feed, one after the other.
pub open spec fn unlines(ls: Seq<Seq<char>>) -> Seq<char>
    decreases ls.len(),
{
    if ls.len() == 0 {
        Seq::empty()
    } else {
        unlines(ls.drop_last()) + ls.last() + seq!['\n']
    }
}

/// The lines with a line feed between each two.
pub open spec fn join_lines(ls: Seq<Seq<char>>) -> Seq<char>
    decreases ls.len(),
{
    if ls.len() == 0 {
        Seq::empty()
    } else if ls.len() == 1 {
        ls[0]
    } else {
        join_lines(ls.drop_last()) + seq!['\n'] + ls.last()
    }
}

/// The decimal digit for `d`, for `d` below ten.
pub open spec fn digit(d: int) -> char {
    if d == 0 {
        '0'
    } else if d == 1 {
        '1'
    } else if d == 2 {
        '2'
    } else if d == 3 {
        '3'
    } else if d == 4 {
        '4'
    } else if d == 5 {
        '5'
    } else if d == 6 {
        '6'
    } else if d == 7 {
        '7'
    } else if d == 8 {
        '8'
    } else {
        '9'
    }
}

/// `n` in decimal, without leading zeros.
pub open spec fn decimal(n: nat) -> Seq<char>
    decreases n,
{
    if n < 10 {
        seq![digit(n as int)]
    } else {
        decimal(n / 10).push(digit((n % 10) as int))
    }
}

/// `s` cut to at most `max` characters: a text longer than that keeps its
/// first `max - 3` characters, followed by three dots.
pub open spec fn truncate(s: Seq<char>, max: int) -> Seq<char> {
    if s.len() <= max {
        s
    } else if max < 3 {
        "..."@
    } else {
        s.subrange(0, max - 3) + "..."@
    }
}

/// The texts of a vector that grew by one are the texts of before and the
/// new one.
pub proof fn lemma_views_push(ls: Seq<Vec<char>>, l: Vec<char>)
    ensures
        views(ls.push(l)) == views(ls).push(l@),
{
    assert(views(ls.push(l)) =~= views(ls).push(l@));
}

/// `find_char` stays between `from` and the end of the text.
pub proof fn lemma_find_char_bounds(s: Seq<char>, c: char, from: int)
    requires
        0 <= from <= s.len(),
    ensures
        from <= find_char(s, c, from) <= s.len(),
        find_char(s, c, from) < s.len() ==> s[find_char(s, c, from)] == c,
        forall|i: int| from <= i < find_char(s, c, from) ==> s[i] != c,
    decreases s.len() - from,
{
    if from < s.len() && s[from] != c {
        lemma_find_char_bounds(s, c, from + 1);
    }
}

/// `skip_whitespace` stays between `from` and the end of the text, passes
/// whitespace only and stops at a character that is none.
pub proof fn lemma_skip_whitespace_bounds(s: Seq<char>, from: int)
    requires
        0 <= from <= s.len(),
    ensures
        from <= skip_whitespace(s, from) <= s.len(),
        skip_whitespace(s, from) < s.len() ==> !is_whitespace(s[skip_whitespace(s, from)]),
        forall|i: int| from <= i < skip_whitespace(s, from) ==> is_whitespace(s[i]),
    decreases s.len() - from,
{
    if from < s.len() && is_whitespace(s[from]) {
        lemma_skip_whitespace_bounds(s, from + 1);
    }
}

/// `skip_whitespace_back` stays between the start of the text and `end`,
/// passes whitespace only and stops after a character that is none.
pub proof fn lemma_skip_whitespace_back_bounds(s: Seq<char>, end: int)
    requires
        0 <= end <= s.len(),
    ensures
        0 <= skip_whitespace_back(s, end) <= end,
        skip_whitespace_back(s, end) > 0 ==> !is_whitespace(s[skip_whitespace_back(s, end) - 1]),
        forall|i: int| skip_whitespace_back(s, end) <= i < end ==> is_whitespace(s[i]),
    decreases end,
{
    if 0 < end && is_whitespace(s[end - 1]) {
        lemma_skip_whitespace_back_bounds(s, end - 1);
    }
}

/// `find_whitespace` stays between `from` and the end of the text.
pub proof fn lemma_find_whitespace_bounds(s: Seq<char>, from: int)
    requires
        0 <= from <= s.len(),
    ensures
        from <= find_whitespace(s, from) <= s.len(),
        find_whitespace(s, from) < s.len() ==> is_whitespace(s[find_whitespace(s, from)]),
        forall|i: int| from <= i < find_whitespace(s, from) ==> !is_whitespace(s[i]),
    decreases s.len() - from,
{
    if from < s.len() && !is_whitespace(s[from]) {
        lemma_find_whitespace_bounds(s, from + 1);
    }
}

/// `rfind_char` gives an index before `end` that holds `c`, with no `c`
/// after it, or -1 when `c` does not occur before `end`.
pub proof fn lemma_rfind_char_bounds(s: Seq<char>, c: char, end: int)
    requires
        0 <= end <= s.len(),
    ensures
        -1 <= rfind_char(s, c, end) < end,
        rfind_char(s, c, end) >= 0 ==> s[rfind_char(s, c, end)] == c,
        forall|i: int| rfind_char(s, c, end) < i < end ==> s[i] != c,
    decreases end,
{
    if 0 < end && s[end - 1] != c {
        lemma_rfind_char_bounds(s, c, end - 1);
    }
}

/// Whether `s` holds no line feed.
pub open spec fn no_line_feed(s: Seq<char>) -> bool {
    forall|i: int| 0 <= i < s.len() ==> #[trigger] s[i] != '\n'
}

/// The first `to` characters of line `k` of `ls`.
pub open spec fn cut(ls: Seq<Seq<char>>, k: int, to: int) -> Seq<char> {
    ls[k].subrange(0, to)
}

/// Whether `line` is line `k` of `ls`, or the beginning of it.
pub open spec fn begins_line(line: Seq<char>, ls: Seq<Seq<char>>, k: int) -> bool {
    0 <= k < ls.len() && exists|to: int|
        0 <= to <= ls[k].len() && line == #[trigger] cut(ls, k, to)
}

/// The index at which line `j` of `ls` begins in `unlines(ls)`.
pub open spec fn line_start(ls: Seq<Seq<char>>, j: int) -> int {
    unlines(ls.take(j)).len() as int
}

/// `find_char` gives `at` when `c` stands at `at`, or the text ends there,
/// and no `c` stands between `from` and `at`.
pub proof fn lemma_find_char_is(s: Seq<char>, c: char, from: int, at: int)
    requires
        0 <= from <= at <= s.len(),
        forall|i: int| from <= i < at ==> s[i] != c,
        at == s.len() || s[at] == c,
    ensures
        find_char(s, c, from) == at,
    decreases at - from,
{
    if from < at {
        lemma_find_char_is(s, c, from + 1, at);
    }
}

/// No line of a text holds a line feed.
pub proof fn lemma_lines_hold_no_line_feed(s: Seq<char>, from: int)
    requires
        0 <= from,
    ensures
        forall|i: int|
            0 <= i < lines_from(s, from).len() ==> no_line_feed(#[trigger] lines_from(s, from)[i]),
    decreases s.len() + 1 - from,
{
    if from < s.len() {
        let end = find_char(s, '\n', from);
        lemma_find_char_bounds(s, '\n', from);
        lemma_lines_hold_no_line_feed(s, end + 1);
        let first = line_at(s, from, end);
        let rest = lines_from(s, end + 1);
        assert(no_line_feed(first)) by {
            assert forall|i: int| 0 <= i < first.len() implies #[trigger] first[i] != '\n' by {
                assert(first[i] == s[from + i]);
            }
        }
        assert forall|i: int| 0 <= i < lines_from(s, from).len() implies no_line_feed(
            #[trigger] lines_from(s, from)[i],
        ) by {
            if i > 0 {
                assert(lines_from(s, from)[i] == rest[i - 1]);
            }
        }
    }
}

/// The lines before line `j` make the beginning of `unlines(ls)`.
pub proof fn lemma_unlines_begins(ls: Seq<Seq<char>>, j: int)
    requires
        0 <= j <= ls.len(),
    ensures
        line_start(ls, j) <= unlines(ls).len(),
        unlines(ls).subrange(0, line_start(ls, j)) == unlines(ls.take(j)),
    decreases ls.len(),
{
    if j == ls.len() {
        assert(ls.take(j) =~= ls);
        assert(unlines(ls).subrange(0, unlines(ls).len() as int) =~= unlines(ls));
    } else {
        let head = ls.drop_last();
        lemma_unlines_begins(head, j);
        assert(head.take(j) =~= ls.take(j));
        assert(unlines(ls).subrange(0, line_start(ls, j)) =~= unlines(head).subrange(
            0,
            line_start(ls, j),
        ));
    }
}

/// Where line `j` stands in `unlines(ls)`: its characters from its start
/// on, then a line feed, then the next line.
pub proof fn lemma_unlines_holds_line(ls: Seq<Seq<char>>, j: int)
    requires
        0 <= j < ls.len(),
    ensures
        line_start(ls, j + 1) == line_start(ls, j) + ls[j].len() + 1,
        line_start(ls, j + 1) <= unlines(ls).len(),
        forall|k: int|
            0 <= k < ls[j].len() ==> #[trigger] unlines(ls)[line_start(ls, j) + k] == ls[j][k],
        unlines(ls)[line_start(ls, j) + ls[j].len()] == '\n',
{
    lemma_unlines_begins(ls, j + 1);
    let upto = ls.take(j + 1);
    assert(upto.drop_last() =~= ls.take(j));
    assert(upto.last() == ls[j]);
    let joined = unlines(upto);
    assert(joined == unlines(ls.take(j)) + ls[j] + seq!['\n']);
    assert forall|k: int| 0 <= k < ls[j].len() implies #[trigger] unlines(ls)[line_start(ls, j)
        + k] == ls[j][k] by {
        assert(unlines(ls)[line_start(ls, j) + k] == joined[line_start(ls, j) + k]);
    }
    assert(unlines(ls)[line_start(ls, j) + ls[j].len()] == joined[line_start(ls, j)
        + ls[j].len()]);
}

/// The lines of a beginning of `unlines(ls)`, read from the start of line
/// `j` on, are the lines of `ls` from `j` on, one for one, or beginnings
/// of them, when no line of `ls` holds a line feed.
pub proof fn lemma_lines_of_beginning(ls: Seq<Seq<char>>, len: int, j: int)
    requires
        forall|k: int| 0 <= k < ls.len() ==> no_line_feed(#[trigger] ls[k]),
        0 <= len <= unlines(ls).len(),
        0 <= j <= ls.len(),
    ensures
        lines_from(unlines(ls).subrange(0, len), line_start(ls, j)).len() <= ls.len() - j,
        forall|i: int|
            0 <= i < lines_from(unlines(ls).subrange(0, len), line_start(ls, j)).len()
                ==> begins_line(
                #[trigger] lines_from(unlines(ls).subrange(0, len), line_start(ls, j))[i],
                ls,
                j + i,
            ),
    decreases ls.len() - j,
{
    let whole = unlines(ls);
    let text = whole.subrange(0, len);
    let from = line_start(ls, j);
    lemma_unlines_begins(ls, j);
    if from < len {
        if j == ls.len() {
            assert(ls.take(j) =~= ls);
        }
        lemma_unlines_holds_line(ls, j);
        let line = ls[j];
        let feed = from + line.len();
        assert(no_line_feed(line));
        assert forall|i: int| from <= i < feed && i < len implies text[i] != '\n' by {
            assert(whole[from + (i - from)] == line[i - from]);
        }
        if feed < len {
            assert(text[feed] == '\n');
            lemma_find_char_is(text, '\n', from, feed);
            let first = line_at(text, from, feed);
            let to = first.len() as int;
            assert(first =~= cut(ls, j, to)) by {
                assert forall|i: int| 0 <= i < to implies first[i] == line[i] by {
                    assert(whole[from + i] == line[i]);
                }
            }
            lemma_lines_of_beginning(ls, len, j + 1);
            let rest = lines_from(text, feed + 1);
            assert forall|i: int| 0 <= i < lines_from(text, from).len() implies begins_line(
                #[trigger] lines_from(text, from)[i],
                ls,
                j + i,
            ) by {
                if i > 0 {
                    assert(lines_from(text, from)[i] == rest[i - 1]);
                    assert(begins_line(rest[i - 1], ls, (j + 1) + (i - 1)));
                }
            }
        } else {
            lemma_find_char_is(text, '\n', from, len);
            let first = line_at(text, from, len);
            let to = len - from;
            assert(first =~= cut(ls, j, to)) by {
                assert forall|i: int| 0 <= i < to implies first[i] == line[i] by {
                    assert(whole[from + i] == line[i]);
                }
            }
            assert(lines_from(text, len + 1) =~= Seq::empty());
            assert(lines_from(text, from) =~= seq![first]);
        }
    }
}

/// Joined lines are `unlines` without its last line feed.
pub proof fn lemma_join_is_beginning(ls: Seq<Seq<char>>)
    requires
        ls.len() > 0,
    ensures
        join_lines(ls) == unlines(ls).subrange(0, unlines(ls).len() - 1),
    decreases ls.len(),
{
    if ls.len() == 1 {
        assert(ls.drop_last() =~= Seq::empty());
        assert(join_lines(ls) =~= unlines(ls).subrange(0, unlines(ls).len() - 1));
    } else {
        lemma_join_is_beginning(ls.drop_last());
        assert(join_lines(ls) =~= unlines(ls).subrange(0, unlines(ls).len() - 1));
    }
}

/// A part of a text without line feed holds none.
pub proof fn lemma_part_holds_no_line_feed(s: Seq<char>, from: int, to: int)
    requires
        no_line_feed(s),
        0 <= from <= to <= s.len(),
    ensures
        no_line_feed(s.subrange(from, to)),
{
    assert forall|i: int| 0 <= i < to - from implies #[trigger] s.subrange(from, to)[i] != '\n' by {
        assert(s.subrange(from, to)[i] == s[from + i]);
    }
}

/// No decimal numeral holds a line feed or begins with a letter.
pub proof fn lemma_decimal_is_digits(n: nat)
    ensures
        decimal(n).len() > 0,
        forall|i: int| 0 <= i < decimal(n).len() ==> '0' <= #[trigger] decimal(n)[i] <= '9',
        no_line_feed(decimal(n)),
    decreases n,
{
    if n >= 10 {
        lemma_decimal_is_digits(n / 10);
    }
}

/// Two texts without line feed make one without.
pub proof fn lemma_joint_holds_no_line_feed(a: Seq<char>, b: Seq<char>)
    requires
        no_line_feed(a),
        no_line_feed(b),
    ensures
        no_line_feed(a + b),
{
    assert forall|i: int| 0 <= i < (a + b).len() implies #[trigger] (a + b)[i] != '\n' by {
        if i < a.len() {
            assert((a + b)[i] == a[i]);
        } else {
            assert((a + b)[i] == b[i - a.len()]);
        }
    }
}

/// What trimming leaves of a text without line feed holds none.
pub proof fn lemma_trimmed_holds_no_line_feed(s: Seq<char>)
    requires
        no_line_feed(s),
    ensures
        no_line_feed(trim_start(s)),
        no_line_feed(trim_end(s)),
        no_line_feed(trim(s)),
{
    lemma_skip_whitespace_bounds(s, 0);
    lemma_skip_whitespace_back_bounds(s, s.len() as int);
    lemma_part_holds_no_line_feed(s, skip_whitespace(s, 0), s.len() as int);
    lemma_part_holds_no_line_feed(s, 0, skip_whitespace_back(s, s.len() as int));
    let t = trim_start(s);
    lemma_skip_whitespace_back_bounds(t, t.len() as int);
    lemma_part_holds_no_line_feed(t, 0, skip_whitespace_back(t, t.len() as int));
}

/// The tail of a text without line feed holds none.
pub proof fn lemma_tail_holds_no_line_feed(s: Seq<char>, from: int)
    requires
        no_line_feed(s),
    ensures
        no_line_feed(tail(s, from)),
{
    if 0 <= from <= s.len() {
        lemma_part_holds_no_line_feed(s, from, s.len() as int);
    }
}

} // verus!
