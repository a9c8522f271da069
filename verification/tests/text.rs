use cargo_distill::text::{
    chars_of, contains, ends_with, equals, find_char, find_whitespace, is_blank, is_whitespace,
    join_lines, push_decimal, rfind_char, same, skip_whitespace, skip_whitespace_back,
    starts_with, string_of, tail, trim, trim_end, trim_start, unlines,
};

const SAMPLES: [&str; 12] = [
    "",
    " ",
    "a",
    "  a  ",
    "\t\n a b \r\n",
    "\u{a0}x\u{3000}",
    "\u{2003}\u{2009}mid dle\u{85}",
    "no-space",
    "   Compiling rtk v0.5.0",
    "error[E0308]: mismatched types",
    "warning: `rtk` (bin) generated 2 warnings",
    "✓ cargo build (3 crates compiled)",
];

#[test]
fn whitespace_is_what_the_standard_library_calls_whitespace() {
    for code in 0..=0x10FFFFu32 {
        if let Some(c) = char::from_u32(code) {
            assert_eq!(is_whitespace(c), c.is_whitespace(), "U+{:04X}", code);
        }
    }
}

#[test]
fn characters_round_trip() {
    for s in SAMPLES {
        assert_eq!(string_of(&chars_of(s)), s);
        assert_eq!(chars_of(s).len(), s.chars().count());
    }
}

#[test]
fn trimming_matches_the_standard_library() {
    for s in SAMPLES {
        let c = chars_of(s);
        assert_eq!(string_of(trim(&c)), s.trim());
        assert_eq!(string_of(trim_start(&c)), s.trim_start());
        assert_eq!(string_of(trim_end(&c)), s.trim_end());
        assert_eq!(is_blank(&c), s.trim().is_empty());
    }
}

#[test]
fn searching_matches_the_standard_library() {
    let patterns = ["", "a", "rtk", "warning", "generated", "error[", "  ", "✓", "d)", "zzz"];
    for s in SAMPLES {
        let c = chars_of(s);
        for p in patterns {
            assert_eq!(starts_with(&c, p), s.starts_with(p), "{:?} starts with {:?}", s, p);
            assert_eq!(ends_with(&c, p), s.ends_with(p), "{:?} ends with {:?}", s, p);
            assert_eq!(contains(&c, p), s.contains(p), "{:?} contains {:?}", s, p);
            assert_eq!(equals(&c, p), s == p);
            assert_eq!(same(&c, &chars_of(p)), s == p);
        }
    }
}

#[test]
fn characters_are_found_from_both_ends() {
    let c = chars_of("a[b]c[d]e");
    assert_eq!(find_char(&c, '[', 0), 1);
    assert_eq!(find_char(&c, '[', 2), 5);
    assert_eq!(find_char(&c, '[', 6), 9);
    assert_eq!(find_char(&c, 'z', 0), 9);
    assert_eq!(rfind_char(&c, ']', 9), Some(7));
    assert_eq!(rfind_char(&c, ']', 7), Some(3));
    assert_eq!(rfind_char(&c, ']', 3), None);
    assert_eq!(rfind_char(&c, 'a', 0), None);
    assert_eq!(rfind_char(&c, 'a', 1), Some(0));
}

#[test]
fn whitespace_is_skipped_and_found() {
    let c = chars_of("  ab \t cd  ");
    assert_eq!(skip_whitespace(&c, 0), 2);
    assert_eq!(skip_whitespace(&c, 2), 2);
    assert_eq!(find_whitespace(&c, 2), 4);
    assert_eq!(skip_whitespace(&c, 4), 7);
    assert_eq!(find_whitespace(&c, 7), 9);
    assert_eq!(skip_whitespace(&c, 9), 11);
    assert_eq!(skip_whitespace_back(&c, 11), 9);
    assert_eq!(skip_whitespace_back(&c, 9), 9);
    assert_eq!(skip_whitespace_back(&c, 7), 4);
    assert_eq!(skip_whitespace_back(&c, 0), 0);
}

#[test]
fn tails_begin_where_asked() {
    let c = chars_of("Installing rtk");
    assert_eq!(string_of(tail(&c, 0)), "Installing rtk");
    assert_eq!(string_of(tail(&c, 10)), " rtk");
    assert_eq!(string_of(tail(&c, 14)), "");
    assert_eq!(string_of(tail(&c, 15)), "");
}

#[test]
fn numbers_are_written_in_decimal() {
    for n in [0usize, 1, 9, 10, 11, 99, 100, 101, 12345, 1_000_000, usize::MAX] {
        let mut out = chars_of("n=");
        push_decimal(&mut out, n);
        assert_eq!(string_of(&out), format!("n={}", n));
    }
}

#[test]
fn lines_are_joined_and_ended() {
    let none: Vec<Vec<char>> = Vec::new();
    assert_eq!(string_of(&join_lines(&none)), "");
    assert_eq!(string_of(&unlines(&none)), "");
    let one = vec![chars_of("a")];
    assert_eq!(string_of(&join_lines(&one)), "a");
    assert_eq!(string_of(&unlines(&one)), "a\n");
    let three = vec![chars_of("a"), chars_of(""), chars_of("c")];
    assert_eq!(string_of(&join_lines(&three)), "a\n\nc");
    assert_eq!(string_of(&unlines(&three)), "a\n\nc\n");
}
