use cargo_distill::{
    filter_cargo_build, filter_cargo_clippy, filter_cargo_install, filter_cargo_test,
    format_crate_info,
};

#[test]
fn test_filter_cargo_build_success() {
    let output = r#"   Compiling libc v0.2.153
   Compiling cfg-if v1.0.0
   Compiling rtk v0.5.0
    Finished dev [unoptimized + debuginfo] target(s) in 15.23s
"#;
    let result = filter_cargo_build(output);
    assert!(result.contains("✓ cargo build"));
    assert!(result.contains("3 crates compiled"));
}

#[test]
fn test_filter_cargo_build_errors() {
    let output = r#"   Compiling rtk v0.5.0
error[E0308]: mismatched types
 --> src/main.rs:10:5
  |
10|     "hello"
  |     ^^^^^^^ expected `i32`, found `&str`

error: aborting due to 1 previous error
"#;
    let result = filter_cargo_build(output);
    assert!(result.contains("1 errors"));
    assert!(result.contains("E0308"));
    assert!(result.contains("mismatched types"));
}

#[test]
fn test_filter_cargo_test_all_pass() {
    let output = r#"   Compiling rtk v0.5.0
    Finished test [unoptimized + debuginfo] target(s) in 2.53s
     Running target/debug/deps/rtk-abc123

running 15 tests
test utils::tests::test_truncate_short_string ... ok
test utils::tests::test_truncate_long_string ... ok
test utils::tests::test_strip_ansi_simple ... ok

test result: ok. 15 passed; 0 failed; 0 ignored; 0 measured; 0 filtered out; finished in 0.01s
"#;
    let result = filter_cargo_test(output);
    assert!(result.contains("✓ test result: ok. 15 passed"));
    assert!(!result.contains("Compiling"));
    assert!(!result.contains("test utils"));
}

#[test]
fn test_filter_cargo_test_failures() {
    let output = r#"running 5 tests
test foo::test_a ... ok
test foo::test_b ... FAILED
test foo::test_c ... ok

failures:

---- foo::test_b stdout ----
thread 'foo::test_b' panicked at 'assert_eq!(1, 2)'

failures:
    foo::test_b

test result: FAILED. 4 passed; 1 failed; 0 ignored; 0 measured; 0 filtered out
"#;
    let result = filter_cargo_test(output);
    assert!(result.contains("FAILURES"));
    assert!(result.contains("test_b"));
    assert!(result.contains("test result:"));
}

#[test]
fn test_filter_cargo_clippy_clean() {
    let output = r#"    Checking rtk v0.5.0
    Finished dev [unoptimized + debuginfo] target(s) in 1.53s
"#;
    let result = filter_cargo_clippy(output);
    assert!(result.contains("✓ cargo clippy: No issues found"));
}

#[test]
fn test_filter_cargo_clippy_warnings() {
    let output = r#"    Checking rtk v0.5.0
warning: unused variable: `x` [unused_variables]
 --> src/main.rs:10:9
  |
10|     let x = 5;
  |         ^ help: if this is intentional, prefix it with an underscore: `_x`

warning: this function has too many arguments [clippy::too_many_arguments]
 --> src/git.rs:16:1
  |
16| pub fn run(a: i32, b: i32, c: i32, d: i32, e: i32, f: i32, g: i32, h: i32) {}
  |

warning: `rtk` (bin) generated 2 warnings
    Finished dev [unoptimized + debuginfo] target(s) in 1.53s
"#;
    let result = filter_cargo_clippy(output);
    assert!(result.contains("0 errors, 2 warnings"));
    assert!(result.contains("unused_variables"));
    assert!(result.contains("clippy::too_many_arguments"));
}

#[test]
fn test_filter_cargo_install_success() {
    let output = r#"  Installing rtk v0.11.0
  Downloading crates ...
  Downloaded anyhow v1.0.80
  Downloaded clap v4.5.0
   Compiling libc v0.2.153
   Compiling cfg-if v1.0.0
   Compiling anyhow v1.0.80
   Compiling clap v4.5.0
   Compiling rtk v0.11.0
    Finished `release` profile [optimized] target(s) in 45.23s
  Replacing /Users/user/.cargo/bin/rtk
   Replaced package `rtk v0.9.4` with `rtk v0.11.0` (/Users/user/.cargo/bin/rtk)
"#;
    let result = filter_cargo_install(output);
    assert!(result.contains("✓ cargo install"), "got: {}", result);
    assert!(result.contains("rtk v0.11.0"), "got: {}", result);
    assert!(result.contains("5 deps compiled"), "got: {}", result);
    assert!(result.contains("Replaced"), "got: {}", result);
    assert!(!result.contains("Compiling"), "got: {}", result);
    assert!(!result.contains("Downloading"), "got: {}", result);
}

#[test]
fn test_filter_cargo_install_replace() {
    let output = r#"  Installing rtk v0.11.0
   Compiling rtk v0.11.0
    Finished `release` profile [optimized] target(s) in 10.0s
  Replacing /Users/user/.cargo/bin/rtk
   Replaced package `rtk v0.9.4` with `rtk v0.11.0` (/Users/user/.cargo/bin/rtk)
"#;
    let result = filter_cargo_install(output);
    assert!(result.contains("✓ cargo install"), "got: {}", result);
    assert!(result.contains("Replacing"), "got: {}", result);
    assert!(result.contains("Replaced"), "got: {}", result);
}

#[test]
fn test_filter_cargo_install_error() {
    let output = r#"  Installing rtk v0.11.0
   Compiling rtk v0.11.0
error[E0308]: mismatched types
 --> src/main.rs:10:5
  |
10|     "hello"
  |     ^^^^^^^ expected `i32`, found `&str`

error: aborting due to 1 previous error
"#;
    let result = filter_cargo_install(output);
    assert!(result.contains("cargo install: 1 error"), "got: {}", result);
    assert!(result.contains("E0308"), "got: {}", result);
    assert!(result.contains("mismatched types"), "got: {}", result);
    assert!(!result.contains("aborting"), "got: {}", result);
}

#[test]
fn test_filter_cargo_install_already_installed() {
    let output = r#"  Ignored package `rtk v0.11.0`, is already installed
"#;
    let result = filter_cargo_install(output);
    assert!(result.contains("already installed"), "got: {}", result);
    assert!(result.contains("rtk v0.11.0"), "got: {}", result);
}

#[test]
fn test_filter_cargo_install_up_to_date() {
    let output = r#"  Ignored package `cargo-deb v2.1.0 (/Users/user/cargo-deb)`, is already installed
"#;
    let result = filter_cargo_install(output);
    assert!(result.contains("already installed"), "got: {}", result);
    assert!(result.contains("cargo-deb v2.1.0"), "got: {}", result);
}

#[test]
fn test_filter_cargo_install_empty_output() {
    let result = filter_cargo_install("");
    assert!(result.contains("✓ cargo install"), "got: {}", result);
    assert!(result.contains("0 deps compiled"), "got: {}", result);
}

#[test]
fn test_filter_cargo_install_path_warning() {
    let output = r#"  Installing rtk v0.11.0
   Compiling rtk v0.11.0
    Finished `release` profile [optimized] target(s) in 10.0s
  Replacing /Users/user/.cargo/bin/rtk
   Replaced package `rtk v0.9.4` with `rtk v0.11.0` (/Users/user/.cargo/bin/rtk)
warning: be sure to add `/Users/user/.cargo/bin` to your PATH
"#;
    let result = filter_cargo_install(output);
    assert!(result.contains("✓ cargo install"), "got: {}", result);
    assert!(
        result.contains("be sure to add"),
        "PATH warning should be kept: {}",
        result
    );
    assert!(result.contains("Replaced"), "got: {}", result);
}

#[test]
fn test_filter_cargo_install_multiple_errors() {
    let output = r#"  Installing rtk v0.11.0
   Compiling rtk v0.11.0
error[E0308]: mismatched types
 --> src/main.rs:10:5
  |
10|     "hello"
  |     ^^^^^^^ expected `i32`, found `&str`

error[E0425]: cannot find value `foo`
 --> src/lib.rs:20:9
  |
20|     foo
  |     ^^^ not found in this scope

error: aborting due to 2 previous errors
"#;
    let result = filter_cargo_install(output);
    assert!(
        result.contains("2 errors"),
        "should show 2 errors: {}",
        result
    );
    assert!(result.contains("E0308"), "got: {}", result);
    assert!(result.contains("E0425"), "got: {}", result);
    assert!(!result.contains("aborting"), "got: {}", result);
}

#[test]
fn test_filter_cargo_install_locking_and_blocking() {
    let output = r#"  Locking 45 packages to latest compatible versions
  Blocking waiting for file lock on package cache
  Downloading crates ...
  Downloaded serde v1.0.200
   Compiling serde v1.0.200
   Compiling rtk v0.11.0
    Finished `release` profile [optimized] target(s) in 30.0s
  Installing rtk v0.11.0
"#;
    let result = filter_cargo_install(output);
    assert!(result.contains("✓ cargo install"), "got: {}", result);
    assert!(!result.contains("Locking"), "got: {}", result);
    assert!(!result.contains("Blocking"), "got: {}", result);
    assert!(!result.contains("Downloading"), "got: {}", result);
}

#[test]
fn test_filter_cargo_install_from_path() {
    let output = r#"  Installing /Users/user/projects/rtk
   Compiling rtk v0.11.0
    Finished `release` profile [optimized] target(s) in 10.0s
"#;
    let result = filter_cargo_install(output);
    // Path-based install: crate info not extracted from path
    assert!(result.contains("✓ cargo install"), "got: {}", result);
    assert!(result.contains("1 deps compiled"), "got: {}", result);
}

#[test]
fn test_format_crate_info() {
    assert_eq!(format_crate_info("rtk", "v0.11.0", ""), "rtk v0.11.0");
    assert_eq!(format_crate_info("rtk", "", ""), "rtk");
    assert_eq!(format_crate_info("", "", "package"), "package");
    assert_eq!(format_crate_info("", "v0.1.0", "fallback"), "fallback");
}
