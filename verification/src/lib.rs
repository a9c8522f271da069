//! Distills the output of cargo subcommands into short summaries: how many
//! errors and warnings there were, the diagnostics themselves and a verdict,
//! without the progress lines, the download chatter and the tests that
//! passed.
//!
//! Each summary is a function of the captured text alone. `chars` holds the
//! vocabulary that the summaries are stated in, and each subcommand has a
//! module with its model, its scan and its layout.

pub mod blocks;
pub mod chars;
pub mod classify;
pub mod compile;
pub mod install;
pub mod lint;
pub mod noise;
pub mod passage;
pub mod render;
pub mod test_report;
pub mod text;

pub use compile::{filter_cargo_build, filter_cargo_check};
pub use install::{filter_cargo_install, format_crate_info};
pub use lint::filter_cargo_clippy;
pub use test_report::filter_cargo_test;

use vstd::prelude::*;

verus! {

/// The cargo subcommands whose output is summarised.
#[derive(Debug, Clone, Copy)]
pub enum CargoCommand {
    Build,
    Test,
    Clippy,
    Check,
    Install,
}

/// The name under which cargo knows the subcommand.
pub open spec fn subcommand_name(cmd: CargoCommand) -> Seq<char> {
    match cmd {
        CargoCommand::Build => "build"@,
        CargoCommand::Test => "test"@,
        CargoCommand::Clippy => "clippy"@,
        CargoCommand::Check => "check"@,
        CargoCommand::Install => "install"@,
    }
}

/// The summary of the output `text` of the subcommand.
pub open spec fn summary(cmd: CargoCommand, text: Seq<char>) -> Seq<char> {
    match cmd {
        CargoCommand::Build => compile::build_summary("build"@, text),
        CargoCommand::Test => test_report::test_summary(text),
        CargoCommand::Clippy => lint::clippy_summary(text),
        CargoCommand::Check => compile::build_summary("check"@, text),
        CargoCommand::Install => install::install_summary(text),
    }
}

/// The name under which cargo knows the subcommand.
pub fn subcommand(cmd: &CargoCommand) -> (name: &'static str)
    ensures
        name@ == subcommand_name(*cmd),
{
    match cmd {
        CargoCommand::Build => "build",
        CargoCommand::Test => "test",
        CargoCommand::Clippy => "clippy",
        CargoCommand::Check => "check",
        CargoCommand::Install => "install",
    }
}

/// Summarises the captured output of a subcommand.
pub fn run(cmd: CargoCommand, output: &str) -> (r: String)
    ensures
        r@ == summary(cmd, output@),
{
    match cmd {
        CargoCommand::Build => run_build(output),
        CargoCommand::Test => run_test(output),
        CargoCommand::Clippy => run_clippy(output),
        CargoCommand::Check => run_check(output),
        CargoCommand::Install => run_install(output),
    }
}

/// Summarises the captured output of `cargo build`.
pub fn run_build(output: &str) -> (r: String)
    ensures
        r@ == compile::build_summary("build"@, output@),
{
    filter_cargo_build(output)
}

/// Summarises the captured output of `cargo test`.
pub fn run_test(output: &str) -> (r: String)
    ensures
        r@ == test_report::test_summary(output@),
{
    filter_cargo_test(output)
}

/// Summarises the captured output of `cargo clippy`.
pub fn run_clippy(output: &str) -> (r: String)
    ensures
        r@ == lint::clippy_summary(output@),
{
    filter_cargo_clippy(output)
}

/// Summarises the captured output of `cargo check`.
pub fn run_check(output: &str) -> (r: String)
    ensures
        r@ == compile::build_summary("check"@, output@),
{
    filter_cargo_check(output)
}

/// Summarises the captured output of `cargo install`.
pub fn run_install(output: &str) -> (r: String)
    ensures
        r@ == install::install_summary(output@),
{
    filter_cargo_install(output)
}

/// No count summary is a line of a summary: lines such as "error: aborting
/// due to ...", "error: could not compile ..." and "warning: ... generated
/// N warnings" are never shown as lines of their own. The summary of a
/// test run shows the details of failures and the last lines of
/// unrecognised output as they came, so this holds of it where it takes no
/// count summary over with them.
pub proof fn lemma_no_count_summary_shown(cmd: CargoCommand, text: Seq<char>)
    requires
        cmd is Test ==> test_report::keeps_no_count_summary(text),
    ensures
        forall|i: int|
            0 <= i < chars::lines(summary(cmd, text)).len() ==> !classify::is_count_summary(
                #[trigger] chars::lines(summary(cmd, text))[i],
            ),
{
    compile::lemma_verbs_hold_no_line_feed();
    match cmd {
        CargoCommand::Build => compile::lemma_no_count_summary_shown("build"@, text),
        CargoCommand::Check => compile::lemma_no_count_summary_shown("check"@, text),
        CargoCommand::Clippy => lint::lemma_no_count_summary_shown(text),
        CargoCommand::Install => install::lemma_no_count_summary_shown(text),
        CargoCommand::Test => test_report::lemma_no_count_summary_shown(text),
    }
}

} // verus!
