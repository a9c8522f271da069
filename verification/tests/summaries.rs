use cargo_distill::text::{chars_of, split_lines, string_of, truncate};
use cargo_distill::{
    filter_cargo_build, filter_cargo_check, filter_cargo_clippy, filter_cargo_install,
    filter_cargo_test, format_crate_info, run, run_build, run_check, run_clippy, run_install,
    run_test, subcommand, CargoCommand,
};

fn rule() -> String {
    "═".repeat(41)
}

fn lines_of(s: &str) -> Vec<String> {
    let chars = chars_of(s);
    split_lines(&chars).iter().map(|l| string_of(l)).collect()
}

#[test]
fn separator_has_forty_one_characters() {
    let out = filter_cargo_build("error: x\n");
    let second = out.lines().nth(1).unwrap();
    assert_eq!(second.chars().count(), 41);
    assert!(second.chars().all(|c| c == '\u{2550}'));
}

#[test]
fn build_without_diagnostics_is_one_line() {
    let out = filter_cargo_build("   Compiling a v1\n    Checking b v2\n    Finished dev\n");
    assert_eq!(out, "✓ cargo build (2 crates compiled)");
}

#[test]
fn build_counts_every_progress_line() {
    let mut input = String::new();
    for i in 0..123 {
        input.push_str(&format!("   Compiling c{} v0.1.0\n", i));
    }
    input.push_str("    Finished `dev` profile\n");
    assert_eq!(filter_cargo_build(&input), "✓ cargo build (123 crates compiled)");
}

#[test]
fn empty_build_output_compiled_nothing() {
    assert_eq!(filter_cargo_build(""), "✓ cargo build (0 crates compiled)");
}

#[test]
fn check_is_summarised_under_its_own_name() {
    let out = filter_cargo_check("    Checking a v1\n    Finished dev\n");
    assert_eq!(out, "✓ cargo check (1 crates compiled)");
    let failed = filter_cargo_check("error: broken\n");
    assert_eq!(failed, format!("cargo check: 1 errors, 0 warnings (0 crates)\n{}\nerror: broken", rule()));
}

#[test]
fn build_with_one_error_shows_the_block() {
    let input = "   Compiling rtk v0.5.0\nerror[E0308]: mismatched types\n --> src/main.rs:10:5\n  |\n10|     \"hello\"\n  |     ^^^^^^^ expected `i32`, found `&str`\n\nerror: aborting due to 1 previous error\n";
    let expected = format!(
        "cargo build: 1 errors, 0 warnings (1 crates)\n{}\nerror[E0308]: mismatched types\n --> src/main.rs:10:5\n  |\n10|     \"hello\"\n  |     ^^^^^^^ expected `i32`, found `&str`",
        rule()
    );
    assert_eq!(filter_cargo_build(input), expected);
}

#[test]
fn blank_line_stays_in_a_short_block() {
    let input = "warning: unused\n\n  note: here\nlast\n";
    let expected = format!(
        "cargo build: 0 errors, 1 warnings (0 crates)\n{}\nwarning: unused\n\n  note: here\nlast",
        rule()
    );
    assert_eq!(filter_cargo_build(input), expected);
}

#[test]
fn blank_line_closes_a_block_of_four_lines() {
    let input = "error: a\n1\n2\n3\n\nafter the block\n";
    let expected = format!("cargo build: 1 errors, 0 warnings (0 crates)\n{}\nerror: a\n1\n2\n3", rule());
    assert_eq!(filter_cargo_build(input), expected);
}

#[test]
fn blank_line_does_not_close_a_block_of_three_lines() {
    let input = "error: a\n1\n2\n\nstill inside\n";
    let expected = format!(
        "cargo build: 1 errors, 0 warnings (0 crates)\n{}\nerror: a\n1\n2\n\nstill inside",
        rule()
    );
    assert_eq!(filter_cargo_build(input), expected);
}

#[test]
fn errors_and_warnings_are_counted_apart() {
    let input = "warning: w1\nerror: e1\nwarning[W2]: w2\nerror[E2]: e2\nwarning: w3\n";
    let out = filter_cargo_build(input);
    let expected = format!(
        "cargo build: 2 errors, 3 warnings (0 crates)\n{}\nwarning: w1\n\nerror: e1\n\nwarning[W2]: w2\n\nerror[E2]: e2\n\nwarning: w3",
        rule()
    );
    assert_eq!(out, expected);
}

#[test]
fn count_summaries_are_dropped_and_not_counted() {
    let input = "warning: unused\nwarning: `rtk` (bin) generated 1 warning\nerror: could not compile `rtk`\nerror: aborting due to 2 previous errors\n";
    let out = filter_cargo_build(input);
    assert_eq!(out, format!("cargo build: 0 errors, 1 warnings (0 crates)\n{}\nwarning: unused", rule()));
    assert!(!out.contains("generated"));
    assert!(!out.contains("could not compile"));
    assert!(!out.contains("aborting"));
}

#[test]
fn only_count_summaries_is_a_clean_build() {
    let input = "warning: `x` generated 2 warnings\nerror: aborting due to 1 previous error\n";
    assert_eq!(filter_cargo_build(input), "✓ cargo build (0 crates compiled)");
}

#[test]
fn progress_inside_a_block_is_not_shown() {
    let input = "error: first\n   Compiling x v1\n  Downloaded y v2\ndetail\n";
    let out = filter_cargo_build(input);
    assert_eq!(out, format!("cargo build: 1 errors, 0 warnings (1 crates)\n{}\nerror: first\ndetail", rule()));
}

fn many_errors(n: usize) -> String {
    let mut input = String::new();
    for i in 0..n {
        input.push_str(&format!("error: e{}\n", i));
    }
    input
}

#[test]
fn fifteen_blocks_are_shown_without_a_note() {
    let out = filter_cargo_build(&many_errors(15));
    assert!(out.starts_with("cargo build: 15 errors, 0 warnings (0 crates)\n"));
    assert!(out.ends_with("error: e13\n\nerror: e14"));
    assert!(!out.contains("more issues"));
    assert_eq!(out.matches("error: e").count(), 15);
}

#[test]
fn the_sixteenth_block_is_counted_not_shown() {
    let out = filter_cargo_build(&many_errors(16));
    assert!(out.starts_with("cargo build: 16 errors, 0 warnings (0 crates)\n"));
    assert!(out.ends_with("error: e14\n\n\n... +1 more issues"));
    assert!(!out.contains("error: e15"));
    assert_eq!(out.matches("error: e").count(), 15);
}

#[test]
fn shown_and_hidden_blocks_add_up() {
    for total in [0usize, 1, 14, 15, 16, 17, 40] {
        let out = filter_cargo_build(&many_errors(total));
        let shown = out.matches("error: e").count();
        let hidden = match out.rfind("... +") {
            Some(at) => out[at + 5..].split(' ').next().unwrap().parse::<usize>().unwrap(),
            None => 0,
        };
        assert_eq!(shown + hidden, total);
        assert!(shown <= 15);
        if total > 15 {
            assert_eq!(shown, 15);
            assert!(out.contains(&format!("{} errors", total)));
        }
    }
}

#[test]
fn carriage_returns_end_lines() {
    let out = filter_cargo_build("   Compiling a v1\r\nerror: bad\r\n  detail\r\n");
    assert_eq!(out, format!("cargo build: 1 errors, 0 warnings (1 crates)\n{}\nerror: bad\n  detail", rule()));
}

#[test]
fn lines_follow_the_line_endings() {
    assert_eq!(lines_of(""), Vec::<String>::new());
    assert_eq!(lines_of("a"), vec!["a"]);
    assert_eq!(lines_of("a\n"), vec!["a"]);
    assert_eq!(lines_of("a\nb"), vec!["a", "b"]);
    assert_eq!(lines_of("a\r\nb\r\n"), vec!["a", "b"]);
    assert_eq!(lines_of("\n\na\n\n"), vec!["", "", "a", ""]);
    assert_eq!(lines_of("a\rb\n"), vec!["a\rb"]);
    assert_eq!(lines_of("a\r"), vec!["a\r"]);
    assert_eq!(lines_of("a\r\r\n"), vec!["a\r"]);
    assert_eq!(lines_of("\r\n"), vec![""]);
    for sample in ["one\ntwo\r\nthree", "x\n\ny\r", "\r\n\r\n", "tail\n"] {
        let expected: Vec<String> = sample.lines().map(|l| l.to_string()).collect();
        assert_eq!(lines_of(sample), expected);
    }
}

#[test]
fn truncate_keeps_short_text_and_marks_long_text() {
    let short = chars_of("hello");
    assert_eq!(string_of(&truncate(&short, 5)), "hello");
    let long = chars_of("hello world");
    assert_eq!(string_of(&truncate(&long, 8)), "hello...");
    assert_eq!(string_of(&truncate(&long, 2)), "...");
    assert_eq!(string_of(&truncate(&long, 3)), "...");
    assert_eq!(string_of(&truncate(&long, 11)), "hello world");
}

#[test]
fn test_run_that_passed_shows_the_result_lines() {
    let input = "   Compiling rtk v0.5.0\nrunning 2 tests\ntest a ... ok\ntest b ... ok\n\ntest result: ok. 2 passed; 0 failed\n\nrunning 1 test\ntest c ... ok\n\ntest result: ok. 1 passed; 0 failed\n";
    assert_eq!(
        filter_cargo_test(input),
        "✓ test result: ok. 2 passed; 0 failed\n✓ test result: ok. 1 passed; 0 failed"
    );
}

#[test]
fn test_run_with_one_failure() {
    let input = "running 2 tests\ntest foo::a ... ok\ntest foo::b ... FAILED\n\nfailures:\n\n---- foo::b stdout ----\nthread 'foo::b' panicked at 'boom'\n\ntest result: FAILED. 1 passed; 1 failed; 0 ignored\n";
    let out = filter_cargo_test(input);
    let expected = format!(
        "FAILURES (1):\n{}\n1. ---- foo::b stdout ----\nthread 'foo::b' panicked at 'boom'\n\ntest result: FAILED. 1 passed; 1 failed; 0 ignored",
        rule()
    );
    assert_eq!(out, expected);
    assert!(out.contains("FAILURES (1):"));
    assert!(out.contains("test result: FAILED. 1 passed; 1 failed; 0 ignored"));
    assert!(!out.contains("... ok"));
}

#[test]
fn result_line_inside_the_failure_region_is_kept_once() {
    let input = "failures:\n    foo::b\ntest result: FAILED. 0 passed; 1 failed\n";
    let out = filter_cargo_test(input);
    assert_eq!(out.matches("test result:").count(), 1);
    assert_eq!(out, format!("FAILURES (1):\n{}\n1.     foo::b\n\ntest result: FAILED. 0 passed; 1 failed", rule()));
}

#[test]
fn failure_details_outside_the_region_are_dropped() {
    let input = "---- not a failure ----\n    indented\ntest result: ok. 0 passed\n";
    assert_eq!(filter_cargo_test(input), "✓ test result: ok. 0 passed");
}

#[test]
fn more_than_ten_failures_are_counted() {
    let mut input = String::from("failures:\n");
    for i in 0..12 {
        input.push_str(&format!("---- t{} stdout ----\n\n", i));
    }
    input.push_str("test result: FAILED. 0 passed; 12 failed\n");
    let out = filter_cargo_test(&input);
    assert!(out.starts_with("FAILURES (12):\n"));
    assert!(out.contains("\n1. ---- t0 stdout ----\n"));
    assert!(out.contains("\n10. ---- t9 stdout ----\n"));
    assert!(!out.contains("t10"));
    assert!(out.ends_with("10. ---- t9 stdout ----\n\n... +2 more failures\n\ntest result: FAILED. 0 passed; 12 failed"));
}

#[test]
fn ten_failures_need_no_note() {
    let mut input = String::from("failures:\n");
    for i in 0..10 {
        input.push_str(&format!("---- t{} stdout ----\n\n", i));
    }
    let out = filter_cargo_test(&input);
    assert!(out.starts_with("FAILURES (10):\n"));
    assert!(!out.contains("more failures"));
    assert!(out.ends_with("10. ---- t9 stdout ----"));
}

#[test]
fn long_failure_is_cut_to_two_hundred_characters() {
    let body = "x".repeat(300);
    let input = format!("failures:\n{}\n", body);
    let out = filter_cargo_test(&input);
    let entry = out.lines().nth(2).unwrap();
    assert_eq!(entry, format!("1. {}...", "x".repeat(197)));
    let exact = "y".repeat(200);
    let out = filter_cargo_test(&format!("failures:\n{}\n", exact));
    assert_eq!(out.lines().nth(2).unwrap(), format!("1. {}", exact));
}

#[test]
fn unrecognised_test_output_falls_back_to_its_last_lines() {
    let input = "   Compiling a v1\none\n\ntwo\nthree\n   \nfour\nfive\nsix\n";
    assert_eq!(filter_cargo_test(input), "two\nthree\nfour\nfive\nsix");
    assert_eq!(filter_cargo_test("  only line  \n"), "only line");
    assert_eq!(filter_cargo_test(""), "");
    assert_eq!(filter_cargo_test("   Compiling a v1\n\n"), "");
}

#[test]
fn fallback_leaves_out_every_progress_line() {
    assert_eq!(filter_cargo_test("note: x\n    Finished dev\n"), "note: x");
    let input = "  Downloading crates ...\n  Downloaded a v1\none\n   Compiling a v1\ntwo\n    Finished `test` profile\n";
    assert_eq!(filter_cargo_test(input), "one\ntwo");
    let only_progress = "  Downloaded a v1\n   Compiling a v1\n    Finished dev\n";
    assert_eq!(filter_cargo_test(only_progress), "");
    let six = "a\nFinished\nb\nc\nDownloaded x\nd\ne\nf\nDownloading y\n";
    assert_eq!(filter_cargo_test(six), "b\nc\nd\ne\nf");
    assert_eq!(filter_cargo_test("running 1 test\ntest a ... ok\n"), "running 1 test\ntest a ... ok");
}

#[test]
fn fallback_shows_a_failed_compilation() {
    let input = "   Compiling a v1\nerror[E0425]: cannot find value `x`\nerror: could not compile `a`\n";
    assert_eq!(
        filter_cargo_test(input),
        "error[E0425]: cannot find value `x`\nerror: could not compile `a`"
    );
}

#[test]
fn lint_without_diagnostics() {
    assert_eq!(filter_cargo_clippy("    Checking a v1\n    Finished dev\n"), "✓ cargo clippy: No issues found");
    assert_eq!(filter_cargo_clippy(""), "✓ cargo clippy: No issues found");
}

#[test]
fn lint_groups_by_rule_and_orders_by_count() {
    let input = "warning: a [rule_a]\n --> a.rs:1:1\nwarning: b [rule_b]\n --> b.rs:1:1\nwarning: b [rule_b]\n   --> b.rs:2:2\nerror: c [rule_c]\n --> c.rs:1:1\n";
    let expected = format!(
        "cargo clippy: 1 errors, 3 warnings\n{}\n  rule_b (2x)\n    b.rs:1:1\n    b.rs:2:2\n  rule_a (1x)\n    a.rs:1:1\n  rule_c (1x)\n    c.rs:1:1",
        rule()
    );
    assert_eq!(filter_cargo_clippy(input), expected);
}

#[test]
fn lint_ties_keep_the_order_of_first_sight() {
    let mut input = String::new();
    for name in ["zeta", "alpha", "mid", "beta"] {
        input.push_str(&format!("warning: x [{}]\n --> {}.rs:1:1\n", name, name));
    }
    input.push_str("warning: x [mid]\n --> mid.rs:2:1\n");
    let out = filter_cargo_clippy(&input);
    let rules: Vec<&str> = out.lines().filter(|l| l.starts_with("  ") && !l.starts_with("    ")).collect();
    assert_eq!(rules, vec!["  mid (2x)", "  zeta (1x)", "  alpha (1x)", "  beta (1x)"]);
    assert_eq!(out, filter_cargo_clippy(&input));
}

#[test]
fn lint_shows_three_places_of_a_rule() {
    let mut input = String::from("warning: x [r]\n");
    for i in 0..5 {
        input.push_str(&format!(" --> f.rs:{}:1\n", i));
    }
    let expected = format!(
        "cargo clippy: 0 errors, 1 warnings\n{}\n  r (5x)\n    f.rs:0:1\n    f.rs:1:1\n    f.rs:2:1\n    ... +2 more",
        rule()
    );
    assert_eq!(filter_cargo_clippy(&input), expected);
}

#[test]
fn lint_shows_fifteen_rules() {
    let mut input = String::new();
    for i in 0..18 {
        input.push_str(&format!("warning: x [rule{}]\n --> f.rs:{}:1\n", i, i));
    }
    let out = filter_cargo_clippy(&input);
    assert!(out.starts_with("cargo clippy: 0 errors, 18 warnings\n"));
    assert!(out.contains("  rule14 (1x)"));
    assert!(!out.contains("rule15"));
    assert!(out.ends_with("  rule14 (1x)\n    f.rs:14:1\n\n... +3 more rules"));
}

#[test]
fn lint_rule_is_the_last_bracket_or_the_message() {
    let out = filter_cargo_clippy("warning: no brackets here\n --> a.rs:1:1\n");
    assert!(out.contains("  no brackets here (1x)"));
    let out = filter_cargo_clippy("error[E0308]: mismatched types\n --> a.rs:1:1\n");
    assert!(out.contains("  E0308 (1x)"));
    let out = filter_cargo_clippy("warning: first [one] then [two]\n --> a.rs:1:1\n");
    assert!(out.contains("  two (1x)"));
    let out = filter_cargo_clippy("warning: open [only\n --> a.rs:1:1\n");
    assert!(out.contains("  open [only (1x)"));
    let out = filter_cargo_clippy("warning: closed] then [open\n --> a.rs:1:1\n");
    assert!(out.contains("  closed] then [open (1x)"));
    let out = filter_cargo_clippy("warning: [inner] closed] [open\n --> a.rs:1:1\n");
    assert!(out.contains("  inner] closed (1x)"));
}

#[test]
fn lint_counts_diagnostics_without_a_place() {
    let out = filter_cargo_clippy("warning: x [r]\nwarning: `a` generated 1 warning\nerror: aborting due to previous error\n");
    assert_eq!(out, format!("cargo clippy: 0 errors, 1 warnings\n{}", rule()));
}

#[test]
fn lint_ignores_places_before_any_rule() {
    let out = filter_cargo_clippy(" --> a.rs:1:1\nwarning: x []\n --> b.rs:1:1\nwarning: y [r]\n --> --> c.rs:1:1\n");
    assert_eq!(out, format!("cargo clippy: 0 errors, 2 warnings\n{}\n  r (1x)\n    c.rs:1:1", rule()));
}

#[test]
fn install_reports_what_is_already_installed() {
    let out = filter_cargo_install("  Ignored package `cargo-deb v2.1.0 (/path)`, is already installed");
    assert_eq!(out, "✓ cargo install: cargo-deb v2.1.0 (/path) already installed");
    assert!(out.contains("already installed"));
    assert!(out.contains("cargo-deb v2.1.0"));
    assert_eq!(
        filter_cargo_install("Ignored package without quotes\n"),
        "✓ cargo install: Ignored package without quotes already installed"
    );
    assert_eq!(
        filter_cargo_install("Ignored package `open\n"),
        "✓ cargo install: open already installed"
    );
}

#[test]
fn install_counts_the_dependencies() {
    let mut input = String::from("  Installing rtk v0.11.0\n");
    for i in 0..5 {
        input.push_str(&format!("   Compiling dep{} v1.0.0\n", i));
    }
    assert_eq!(filter_cargo_install(&input), "✓ cargo install (rtk v0.11.0, 5 deps compiled)");
}

#[test]
fn install_lists_replacements_and_advice() {
    let input = "  Installing rtk v0.11.0\n   Compiling rtk v0.11.0\n  Replacing /bin/rtk\n   Replaced package `rtk v0.9.4` with `rtk v0.11.0`\nwarning: be sure to add `/bin` to your PATH\nwarning: `rtk` generated 2 warnings\n";
    assert_eq!(
        filter_cargo_install(input),
        "✓ cargo install (rtk v0.11.0, 1 deps compiled)\n  Replacing /bin/rtk\n  Replaced package `rtk v0.9.4` with `rtk v0.11.0`\n  warning: be sure to add `/bin` to your PATH"
    );
}

#[test]
fn install_from_a_path_names_no_crate() {
    assert_eq!(
        filter_cargo_install("  Installing /home/me/rtk\n   Compiling rtk v1\n"),
        "✓ cargo install (package, 1 deps compiled)"
    );
    assert_eq!(filter_cargo_install(""), "✓ cargo install (package, 0 deps compiled)");
}

#[test]
fn install_takes_the_name_from_the_installed_line() {
    assert_eq!(
        filter_cargo_install("   Installed package `rtk v1` (executable `rtk`)\n"),
        "✓ cargo install (package `rtk, 0 deps compiled)"
    );
    assert_eq!(
        filter_cargo_install("  Installing rtk v2\n   Installed other v1\n"),
        "✓ cargo install (rtk v2, 0 deps compiled)"
    );
    assert_eq!(
        filter_cargo_install("   Installed single\n"),
        "✓ cargo install (package, 0 deps compiled)"
    );
    assert_eq!(filter_cargo_install("  Installing solo\n"), "✓ cargo install (solo, 0 deps compiled)");
}

#[test]
fn install_failure_names_crate_and_dependencies() {
    let input = "  Installing rtk v0.11.0\n   Compiling a v1\n   Compiling b v1\nerror[E1]: first\nerror: second\nerror: aborting due to 2 previous errors\n";
    let expected = format!(
        "cargo install: 2 errors (rtk v0.11.0, 2 deps compiled)\n{}\nerror[E1]: first\n\nerror: second",
        rule()
    );
    assert_eq!(filter_cargo_install(input), expected);
}

#[test]
fn install_failure_without_crate_or_dependencies() {
    assert_eq!(
        filter_cargo_install("error: no such crate\n"),
        format!("cargo install: 1 error\n{}\nerror: no such crate", rule())
    );
    assert_eq!(
        filter_cargo_install("   Compiling a v1\nerror: broken\n"),
        format!("cargo install: 1 error, 1 deps compiled\n{}\nerror: broken", rule())
    );
    assert_eq!(
        filter_cargo_install("  Installing rtk v1\nerror: broken\n"),
        format!("cargo install: 1 error (rtk v1)\n{}\nerror: broken", rule())
    );
}

#[test]
fn install_warnings_open_no_block() {
    let input = "warning: something odd\n  detail of the warning\nerror: real\nwarning: in between\n  tail\n";
    let expected = format!("cargo install: 1 error\n{}\nerror: real\n  tail", rule());
    assert_eq!(filter_cargo_install(input), expected);
}

#[test]
fn already_installed_wins_over_errors() {
    let input = "error: something\n  Ignored package `a v1`, is already installed\n";
    assert_eq!(filter_cargo_install(input), "✓ cargo install: a v1 already installed");
}

#[test]
fn crate_info_has_four_shapes() {
    assert_eq!(format_crate_info("rtk", "v1", "x"), "rtk v1");
    assert_eq!(format_crate_info("rtk", "", "x"), "rtk");
    assert_eq!(format_crate_info("", "v1", "x"), "x");
    assert_eq!(format_crate_info("", "", ""), "");
}

#[test]
fn run_dispatches_on_the_subcommand() {
    let input = "   Compiling a v1\nwarning: w [r]\n --> a.rs:1:1\ntest result: ok. 1 passed\n";
    assert_eq!(run(CargoCommand::Build, input), filter_cargo_build(input));
    assert_eq!(run(CargoCommand::Check, input), filter_cargo_check(input));
    assert_eq!(run(CargoCommand::Test, input), filter_cargo_test(input));
    assert_eq!(run(CargoCommand::Clippy, input), filter_cargo_clippy(input));
    assert_eq!(run(CargoCommand::Install, input), filter_cargo_install(input));
    assert_eq!(run_build(input), filter_cargo_build(input));
    assert_eq!(run_check(input), filter_cargo_check(input));
    assert_eq!(run_test(input), filter_cargo_test(input));
    assert_eq!(run_clippy(input), filter_cargo_clippy(input));
    assert_eq!(run_install(input), filter_cargo_install(input));
    assert!(run(CargoCommand::Build, input).starts_with("cargo build: 0 errors, 1 warnings (1 crates)"));
    assert!(run(CargoCommand::Check, input).starts_with("cargo check: 0 errors, 1 warnings (1 crates)"));
}

#[test]
fn subcommands_have_their_cargo_names() {
    assert_eq!(subcommand(&CargoCommand::Build), "build");
    assert_eq!(subcommand(&CargoCommand::Test), "test");
    assert_eq!(subcommand(&CargoCommand::Clippy), "clippy");
    assert_eq!(subcommand(&CargoCommand::Check), "check");
    assert_eq!(subcommand(&CargoCommand::Install), "install");
}

#[test]
fn summaries_of_summaries_invent_nothing() {
    let build = "   Compiling a v1\nerror[E1]: first\n --> a.rs:1:1\nwarning: second\n";
    let once = filter_cargo_build(build);
    assert_eq!(once, format!("cargo build: 1 errors, 1 warnings (1 crates)\n{}\nerror[E1]: first\n --> a.rs:1:1\n\nwarning: second", rule()));
    let twice = filter_cargo_build(&once);
    assert_eq!(twice, format!("cargo build: 1 errors, 1 warnings (0 crates)\n{}\nerror[E1]: first\n --> a.rs:1:1\n\n\nwarning: second", rule()));
    let thrice = filter_cargo_build(&twice);
    assert_eq!(thrice, format!("cargo build: 1 errors, 1 warnings (0 crates)\n{}\nerror[E1]: first\n --> a.rs:1:1\n\n\n\nwarning: second", rule()));
    assert_eq!(filter_cargo_build(&thrice), thrice);
    assert_eq!(filter_cargo_build("✓ cargo build (7 crates compiled)"), "✓ cargo build (0 crates compiled)");
    assert_eq!(filter_cargo_clippy("✓ cargo clippy: No issues found"), "✓ cargo clippy: No issues found");
    let lint = filter_cargo_clippy("warning: w [r]\n --> a.rs:1:1\n");
    assert_eq!(filter_cargo_clippy(&lint), "✓ cargo clippy: No issues found");
    let passed = filter_cargo_test("test result: ok. 1 passed\n");
    assert_eq!(filter_cargo_test(&passed), passed);
    let failed = filter_cargo_test("failures:\n---- a ----\n\ntest result: FAILED. 0 passed; 1 failed\n");
    assert_eq!(filter_cargo_test(&failed), "✓ test result: FAILED. 0 passed; 1 failed");
    let installed = filter_cargo_install("  Installing rtk v1\n   Compiling a v1\n  Replacing /bin/rtk\n");
    assert_eq!(filter_cargo_install(&installed), "✓ cargo install (package, 0 deps compiled)\n  Replacing /bin/rtk");
    let broken = filter_cargo_install("error: bad\n detail\n");
    assert_eq!(filter_cargo_install(&broken), broken);
}

#[test]
fn no_count_summary_is_a_line_of_a_summary() {
    let noisy = "   Compiling a v1\nerror[E1]: first\n  = note: error: aborting due to this\nwarning: x [r]\n --> a.rs:1:1\nwarning: `a` generated 3 warnings\nerror: could not compile `a`\nerror: aborting due to 1 previous error\nwarning[W]: `a` generated 1 warning\n";
    let outputs = [
        filter_cargo_build(noisy),
        filter_cargo_check(noisy),
        filter_cargo_clippy(noisy),
        filter_cargo_install(noisy),
    ];
    for out in outputs {
        for line in out.lines() {
            let marked_error = line.starts_with("error:") || line.starts_with("error[");
            let aborts = line.contains("aborting due to") || line.contains("could not compile");
            let counts = line.starts_with("warning:") && line.contains("generated") && line.contains("warning");
            assert!(!(marked_error && aborts), "shown: {}", line);
            assert!(!counts, "shown: {}", line);
        }
    }
}

#[test]
fn test_summary_shows_failure_details_as_they_came() {
    let input = "failures:\n---- a stdout ----\nerror: aborting due to a panic\n\ntest result: FAILED. 0 passed; 1 failed\n";
    let out = filter_cargo_test(input);
    assert_eq!(
        out,
        format!(
            "FAILURES (1):\n{}\n1. ---- a stdout ----\nerror: aborting due to a panic\n\ntest result: FAILED. 0 passed; 1 failed",
            rule()
        )
    );
}

fn is_count_summary(line: &str) -> bool {
    let marked_error = line.starts_with("error:") || line.starts_with("error[");
    let aborts = line.contains("aborting due to") || line.contains("could not compile");
    let counts = line.starts_with("warning:") && line.contains("generated") && line.contains("warning");
    (marked_error && aborts) || counts
}

#[test]
fn test_summary_adds_no_count_summary_of_its_own() {
    let long_detail = format!("error: {} could not", "x".repeat(190));
    let inputs = [
        format!("failures:\n---- a stdout ----\n{}\n\ntest result: FAILED. 0 passed; 1 failed\n", long_detail),
        String::from("failures:\n---- a stdout ----\n  error: details\nwarning[x]: generated\n\n---- b stdout ----\nerror[E1]: aborting\n"),
        String::from("running 1 test\ntest a ... ok\n\ntest result: ok. 1 passed; 0 failed\n"),
        String::from("  note: error: could not compile\n\twarning[x]: generated 2 warnings\nplain\n"),
        String::from(""),
    ];
    for input in inputs.iter() {
        assert!(input.lines().all(|l| !is_count_summary(l.trim_start())));
        let out = filter_cargo_test(input);
        for line in out.lines() {
            assert!(!is_count_summary(line), "shown: {}", line);
        }
    }
}

#[test]
fn test_summary_leaves_out_count_summaries_beside_the_results() {
    let passed = "warning: `a` generated 2 warnings\nrunning 1 test\ntest a ... ok\n\ntest result: ok. 1 passed; 0 failed\nerror: aborting due to 1 previous error\n";
    assert_eq!(filter_cargo_test(passed), "✓ test result: ok. 1 passed; 0 failed");
    let failed = "error: could not compile `dep`\nfailures:\n---- a stdout ----\n  boom\n\ntest result: FAILED. 0 passed; 1 failed\nerror: aborting due to 1 previous error\n";
    assert_eq!(
        filter_cargo_test(failed),
        format!(
            "FAILURES (1):\n{}\n1. ---- a stdout ----\n  boom\n\ntest result: FAILED. 0 passed; 1 failed",
            rule()
        )
    );
}

#[test]
fn test_summary_shows_no_count_summary_of_a_failure_it_leaves_out() {
    let mut input = String::from("failures:\n");
    for i in 0..10 {
        input.push_str(&format!("---- t{} stdout ----\n\n", i));
    }
    input.push_str("---- last stdout ----\nerror: could not compile `a`\n");
    let out = filter_cargo_test(&input);
    assert!(out.starts_with("FAILURES (11):\n"));
    assert!(out.ends_with("10. ---- t9 stdout ----\n\n... +1 more failures"));
    for line in out.lines() {
        assert!(!is_count_summary(line), "shown: {}", line);
    }
}

fn is_noise(line: &str) -> bool {
    let rest = line.trim_start();
    let progress = ["Compiling", "Downloading", "Downloaded", "Finished"].iter().any(|w| rest.starts_with(w));
    progress || line.starts_with("running ") || (line.starts_with("test ") && line.ends_with("... ok"))
}

#[test]
fn test_summary_with_results_or_failures_shows_no_noise() {
    let long = format!("running {}", "x".repeat(300));
    let inputs = [
        String::from("   Compiling a v1\n    Finished test\nrunning 2 tests\ntest a ... ok\ntest b ... ok\n\ntest result: ok. 2 passed; 0 failed\n"),
        String::from("running 2 tests\ntest a ... ok\ntest b ... FAILED\n\nfailures:\n\n---- b stdout ----\ntest a ... ok\n   Compiling late v1\nrunning on\n  Downloaded x\nboom\n\nfailures:\n    b\n\ntest result: FAILED. 1 passed; 1 failed\n"),
        format!("failures:\n---- a stdout ----\n  note  {}\n\ntest result: FAILED. 0 passed; 1 failed\n", long),
        String::from("failures:\n---- a stdout ----\ntest a ... ok and more\n"),
    ];
    for input in inputs.iter() {
        let out = filter_cargo_test(input);
        assert!(!out.is_empty());
        for line in out.lines() {
            assert!(!is_noise(line), "shown: {}", line);
        }
    }
}

#[test]
fn a_detail_can_turn_into_noise_when_its_line_ending_goes() {
    let out = filter_cargo_test("failures:\n---- a stdout ----\ntest a ... ok\r\r\nboom\n");
    assert_eq!(out, format!("FAILURES (1):\n{}\n1. ---- a stdout ----\ntest a ... ok\r\nboom", rule()));
    let trimmed = filter_cargo_test("failures:\n---- a stdout ----\ntest a ... ok  \n");
    assert_eq!(trimmed, format!("FAILURES (1):\n{}\n1. ---- a stdout ----\ntest a ... ok", rule()));
}

#[test]
fn test_summary_cuts_a_failure_in_the_middle_of_a_line() {
    let input = format!("failures:\n---- a stdout ----\nerror: {} could not compile\n", "x".repeat(190));
    let out = filter_cargo_test(&input);
    let expected = format!(
        "FAILURES (1):\n{}\n1. ---- a stdout ----\nerror: {}...",
        rule(),
        "x".repeat(171)
    );
    assert_eq!(out, expected);
}

#[test]
fn fallback_shows_an_indented_count_summary_without_its_indent() {
    let out = filter_cargo_test("  error: could not compile `a`\n");
    assert_eq!(out, "error: could not compile `a`");
}

#[test]
fn summaries_of_summaries_count_no_more() {
    let inputs = [
        "error: a\nwarning: b\n  detail\n\nerror[E2]: c\n",
        "   Compiling a v1\nwarning: only\n",
        "error: one\nerror: two\r\nerror: three  \n",
        "",
    ];
    for input in inputs {
        let once = filter_cargo_build(input);
        let twice = filter_cargo_build(&once);
        let count = |text: &str, mark: &str| text.lines().filter(|l| l.starts_with(mark)).count();
        assert!(count(&twice, "error") <= count(&once, "error"));
        assert!(count(&twice, "warning") <= count(&once, "warning"));
        assert_eq!(filter_cargo_clippy(&filter_cargo_clippy(input)), "✓ cargo clippy: No issues found");
        let installed = filter_cargo_install(input);
        assert!(count(&filter_cargo_install(&installed), "error") <= count(&installed, "error"));
    }
}
