//! Executable text primitives over slices of characters, each verified
//! against its definition in `chars`.

use crate::chars;
use vstd::prelude::*;
use vstd::slice::slice_subrange;

verus! {

/// `String::push` appends one character to the string.
pub assume_specification[ String::push ](s: &mut String, c: char)
    ensures
        final(s)@ == old(s)@.push(c),
;

/// Collects the characters of a string slice into a vector.
pub fn chars_of(s: &str) -> (v: Vec<char>)
    ensures
        v@ == s@,
{
    let mut v: Vec<char> = Vec::new();
    for c in it: s.chars()
        invariant
            v@ == it.seq().take(it.index() as int),
            it.seq() == s@,
    {
        v.push(c);
    }
    v
}

/// Builds a string from characters.
pub fn string_of(s: &[char]) -> (r: String)
    ensures
        r@ == s@,
{
    let mut r = String::new();
    let mut i: usize = 0;
    while i < s.len()
        invariant
            i <= s.len(),
            r@ == s@.take(i as int),
        decreases s.len() - i,
    {
        r.push(s[i]);
        i += 1;
    }
    r
}

/// Appends the characters of `s` to `out`.
pub fn push_all(out: &mut Vec<char>, s: &[char])
    ensures
        final(out)@ == old(out)@ + s@,
{
    let mut i: usize = 0;
    while i < s.len()
        invariant
            i <= s.len(),
            out@ == old(out)@ + s@.take(i as int),
        decreases s.len() - i,
    {
        out.push(s[i]);
        i += 1;
    }
}

/// Appends the characters of the string slice `s` to `out`.
pub fn push_str(out: &mut Vec<char>, s: &str)
    ensures
        final(out)@ == old(out)@ + s@,
{
    for c in it: s.chars()
        invariant
            out@ == old(out)@ + it.seq().take(it.index() as int),
            it.seq() == s@,
    {
        out.push(c);
    }
}

/// A copy of `s`.
pub fn to_vec(s: &[char]) -> (v: Vec<char>)
    ensures
        v@ == s@,
{
    let mut v: Vec<char> = Vec::new();
    push_all(&mut v, s);
    v
}

/// Whether `c` is whitespace.
pub fn is_whitespace(c: char) -> (b: bool)
    ensures
        b == chars::is_whitespace(c),
{
    let u: u32 = c as u32;
    (0x09 <= u && u <= 0x0D) || u == 0x20 || u == 0x85 || u == 0xA0 || u == 0x1680 || (0x2000 <= u
        && u <= 0x200A) || u == 0x2028 || u == 0x2029 || u == 0x202F || u == 0x205F || u == 0x3000
}

/// Whether `s` holds whitespace only.
pub fn is_blank(s: &[char]) -> (b: bool)
    ensures
        b == chars::is_blank(s@),
{
    let mut i: usize = 0;
    while i < s.len()
        invariant
            i <= s.len(),
            forall|k: int| 0 <= k < i ==> chars::is_whitespace(#[trigger] s@[k]),
        decreases s.len() - i,
    {
        if !is_whitespace(s[i]) {
            return false;
        }
        i += 1;
    }
    true
}

/// The first index at or after `from` that holds no whitespace.
pub fn skip_whitespace(s: &[char], from: usize) -> (r: usize)
    requires
        from <= s@.len(),
    ensures
        r == chars::skip_whitespace(s@, from as int),
        from <= r <= s@.len(),
{
    let mut i: usize = from;
    while i < s.len() && is_whitespace(s[i])
        invariant
            from <= i <= s.len(),
            chars::skip_whitespace(s@, from as int) == chars::skip_whitespace(s@, i as int),
        decreases s.len() - i,
    {
        i += 1;
    }
    i
}

/// The start of the whitespace that ends right before `end`.
pub fn skip_whitespace_back(s: &[char], end: usize) -> (r: usize)
    requires
        end <= s@.len(),
    ensures
        r == chars::skip_whitespace_back(s@, end as int),
        r <= end,
{
    let mut i: usize = end;
    while i > 0 && is_whitespace(s[i - 1])
        invariant
            i <= end <= s.len(),
            chars::skip_whitespace_back(s@, end as int) == chars::skip_whitespace_back(
                s@,
                i as int,
            ),
        decreases i,
    {
        i -= 1;
    }
    i
}

/// The first index at or after `from` that holds whitespace.
pub fn find_whitespace(s: &[char], from: usize) -> (r: usize)
    requires
        from <= s@.len(),
    ensures
        r == chars::find_whitespace(s@, from as int),
        from <= r <= s@.len(),
{
    let mut i: usize = from;
    while i < s.len() && !is_whitespace(s[i])
        invariant
            from <= i <= s.len(),
            chars::find_whitespace(s@, from as int) == chars::find_whitespace(s@, i as int),
        decreases s.len() - i,
    {
        i += 1;
    }
    i
}

/// The first index at or after `from` that holds `c`.
pub fn find_char(s: &[char], c: char, from: usize) -> (r: usize)
    requires
        from <= s@.len(),
    ensures
        r == chars::find_char(s@, c, from as int),
        from <= r <= s@.len(),
{
    let mut i: usize = from;
    while i < s.len() && s[i] != c
        invariant
            from <= i <= s.len(),
            chars::find_char(s@, c, from as int) == chars::find_char(s@, c, i as int),
        decreases s.len() - i,
    {
        i += 1;
    }
    i
}

/// The last index before `end` that holds `c`, if there is one.
pub fn rfind_char(s: &[char], c: char, end: usize) -> (r: Option<usize>)
    requires
        end <= s@.len(),
    ensures
        match r {
            Some(i) => i == chars::rfind_char(s@, c, end as int) && i < end,
            None => chars::rfind_char(s@, c, end as int) == -1,
        },
{
    let mut i: usize = end;
    while i > 0
        invariant
            i <= end <= s.len(),
            chars::rfind_char(s@, c, end as int) == chars::rfind_char(s@, c, i as int),
        decreases i,
    {
        if s[i - 1] == c {
            return Some(i - 1);
        }
        i -= 1;
    }
    None
}

/// `s` without its leading whitespace.
pub fn trim_start(s: &[char]) -> (r: &[char])
    ensures
        r@ == chars::trim_start(s@),
{
    let from = skip_whitespace(s, 0);
    slice_subrange(s, from, s.len())
}

/// `s` without its trailing whitespace.
pub fn trim_end(s: &[char]) -> (r: &[char])
    ensures
        r@ == chars::trim_end(s@),
{
    let end = skip_whitespace_back(s, s.len());
    slice_subrange(s, 0, end)
}

/// `s` without leading and trailing whitespace.
pub fn trim(s: &[char]) -> (r: &[char])
    ensures
        r@ == chars::trim(s@),
{
    trim_end(trim_start(s))
}

/// `s` from index `from` on.
pub fn tail(s: &[char], from: usize) -> (r: &[char])
    ensures
        r@ == chars::tail(s@, from as int),
{
    if from <= s.len() {
        slice_subrange(s, from, s.len())
    } else {
        slice_subrange(s, 0, 0)
    }
}

/// Whether `pat` stands in `s` at index `i`.
pub fn occurs_at(s: &[char], pat: &[char], i: usize) -> (b: bool)
    ensures
        b == chars::occurs_at(s@, pat@, i as int),
{
    if i > s.len() || pat.len() > s.len() - i {
        return false;
    }
    let mut k: usize = 0;
    while k < pat.len()
        invariant
            k <= pat.len(),
            i + pat.len() <= s.len(),
            forall|t: int| 0 <= t < k ==> s@[i + t] == pat@[t],
        decreases pat.len() - k,
    {
        if s[i + k] != pat[k] {
            assert(s@.subrange(i as int, i + pat@.len())[k as int] != pat@[k as int]);
            return false;
        }
        k += 1;
    }
    assert(s@.subrange(i as int, i + pat@.len()) =~= pat@);
    true
}

/// Whether `s` begins with `pat`.
pub fn starts_with(s: &[char], pat: &str) -> (b: bool)
    ensures
        b == chars::starts_with(s@, pat@),
{
    let p = chars_of(pat);
    occurs_at(s, p.as_slice(), 0)
}

/// Whether `s` ends with `pat`.
pub fn ends_with(s: &[char], pat: &str) -> (b: bool)
    ensures
        b == chars::ends_with(s@, pat@),
{
    let p = chars_of(pat);
    if p.len() > s.len() {
        return false;
    }
    occurs_at(s, p.as_slice(), s.len() - p.len())
}

/// Whether `pat` stands somewhere in `s`.
pub fn contains(s: &[char], pat: &str) -> (b: bool)
    ensures
        b == chars::contains(s@, pat@),
{
    let p = chars_of(pat);
    if p.len() > s.len() {
        return false;
    }
    let last: usize = s.len() - p.len();
    let mut i: usize = 0;
    loop
        invariant
            i <= last,
            last == s.len() - p.len(),
            p@ == pat@,
            forall|k: int| 0 <= k < i ==> !chars::occurs_at(s@, pat@, k),
        decreases last - i,
    {
        if occurs_at(s, p.as_slice(), i) {
            return true;
        }
        if i == last {
            return false;
        }
        i += 1;
    }
}

/// Whether `s` is exactly `pat`.
pub fn equals(s: &[char], pat: &str) -> (b: bool)
    ensures
        b == (s@ == pat@),
{
    let p = chars_of(pat);
    if p.len() != s.len() {
        return false;
    }
    let b = occurs_at(s, p.as_slice(), 0);
    assert(s@.subrange(0, s@.len() as int) =~= s@);
    b
}

/// Whether `a` and `b` hold the same characters.
pub fn same(a: &[char], b: &[char]) -> (r: bool)
    ensures
        r == (a@ == b@),
{
    if a.len() != b.len() {
        return false;
    }
    let r = occurs_at(a, b, 0);
    assert(a@.subrange(0, a@.len() as int) =~= a@);
    r
}

/// The lines of `s`.
pub fn split_lines(s: &[char]) -> (ls: Vec<Vec<char>>)
    ensures
        chars::views(ls@) == chars::lines(s@),
{
    let mut ls: Vec<Vec<char>> = Vec::new();
    let mut from: usize = 0;
    while from < s.len()
        invariant
            from <= s.len(),
            chars::views(ls@) + chars::lines_from(s@, from as int) == chars::lines(s@),
        decreases s.len() - from,
    {
        let end = find_char(s, '\n', from);
        let ghost before = chars::views(ls@);
        let stop = if from < end && end < s.len() && s[end - 1] == '\r' {
            end - 1
        } else {
            end
        };
        let line = to_vec(slice_subrange(s, from, stop));
        ls.push(line);
        proof {
            let l = chars::line_at(s@, from as int, end as int);
            assert(line@ == l);
            assert(chars::views(ls@) =~= before.push(l));
            assert(before.push(l) + chars::lines_from(s@, end + 1) =~= before + (seq![l]
                + chars::lines_from(s@, end + 1)));
        }
        if end == s.len() {
            from = end;
        } else {
            from = end + 1;
        }
    }
    assert(chars::views(ls@) + Seq::<Seq<char>>::empty() =~= chars::views(ls@));
    ls
}

/// Each line followed by a line feed, one after the other.
pub fn unlines(ls: &Vec<Vec<char>>) -> (r: Vec<char>)
    ensures
        r@ == chars::unlines(chars::views(ls@)),
{
    let mut r: Vec<char> = Vec::new();
    let mut i: usize = 0;
    while i < ls.len()
        invariant
            i <= ls.len(),
            r@ == chars::unlines(chars::views(ls@).take(i as int)),
        decreases ls.len() - i,
    {
        proof {
            let next = chars::views(ls@).take(i + 1);
            assert(next.drop_last() =~= chars::views(ls@).take(i as int));
            assert(next.last() == ls[i as int]@);
        }
        push_all(&mut r, ls[i].as_slice());
        r.push('\n');
        i += 1;
    }
    assert(chars::views(ls@).take(ls.len() as int) =~= chars::views(ls@));
    r
}

/// The lines with a line feed between each two.
pub fn join_lines(ls: &Vec<Vec<char>>) -> (r: Vec<char>)
    ensures
        r@ == chars::join_lines(chars::views(ls@)),
{
    let mut r: Vec<char> = Vec::new();
    let mut i: usize = 0;
    while i < ls.len()
        invariant
            i <= ls.len(),
            r@ == chars::join_lines(chars::views(ls@).take(i as int)),
        decreases ls.len() - i,
    {
        proof {
            let next = chars::views(ls@).take(i + 1);
            assert(next.drop_last() =~= chars::views(ls@).take(i as int));
            assert(next.last() == ls[i as int]@);
        }
        if i > 0 {
            r.push('\n');
        }
        push_all(&mut r, ls[i].as_slice());
        i += 1;
    }
    assert(chars::views(ls@).take(ls.len() as int) =~= chars::views(ls@));
    r
}

/// The decimal digit for `d`.
pub fn digit(d: usize) -> (c: char)
    requires
        d < 10,
    ensures
        c == chars::digit(d as int),
{
    if d == 0 {
        '0'
    } else if d == 1 {
        '1'
    } else if d == 2 {
        '2'
    } else if d == 3 {
        '3'
    } else if d == 4 {
        '4'
    } else if d == 5 {
        '5'
    } else if d == 6 {
        '6'
    } else if d == 7 {
        '7'
    } else if d == 8 {
        '8'
    } else {
        '9'
    }
}

/// Appends `n` in decimal to `out`.
pub fn push_decimal(out: &mut Vec<char>, n: usize)
    ensures
        final(out)@ == old(out)@ + chars::decimal(n as nat),
    decreases n,
{
    if n >= 10 {
        push_decimal(out, n / 10);
    }
    out.push(digit(n % 10));
}

/// `s` cut to at most `max` characters, ending in three dots when it was
/// longer.
pub fn truncate(s: &[char], max: usize) -> (r: Vec<char>)
    ensures
        r@ == chars::truncate(s@, max as int),
{
    if s.len() <= max {
        to_vec(s)
    } else if max < 3 {
        chars_of("...")
    } else {
        let mut r = to_vec(slice_subrange(s, 0, max - 3));
        push_str(&mut r, "...");
        r
    }
}

} // verus!
