//! Command-line decisions: which command the flags select, where files go,
//! and the exit status of a check.
use vstd::prelude::*;

use crate::db::{data_dir_of, data_dir_from_env};

verus! {

pub const USAGE: &'static str = r#"Specify exactly one of --get or --check <csv>.

Usage:
  crityoink --get [--full] [--data-dir DIR]
  crityoink --check CSV [--data-dir DIR] [--out FILE]

--get fully rebuilds the local database every time (--full is accepted and changes nothing).
Your CPE inventory is never sent to NVD. --check uses the local database only."#;

/// The report file when `--out` is not given.
pub const DEFAULT_REPORT: &'static str = "crityoink-report.html";

/// The command-line flags.
#[derive(Debug, Clone, PartialEq, Eq)]
pub struct Cli {
    /// Update the local JSON database from NVD.
    pub get: bool,
    /// Accepted with `get`; every `get` rebuilds in full.
    pub full: bool,
    /// Match this inventory CSV against the local database.
    pub check: Option<String>,
    /// Directory of the local database.
    pub data_dir: Option<String>,
    /// HTML report path (check only).
    pub out: Option<String>,
}

/// What the flags ask for.
#[derive(Debug, Clone, PartialEq, Eq)]
pub enum Command {
    /// Rebuild the database.
    Get { data_dir: Option<String>, full: bool },
    /// Check an inventory against the database.
    Check { csv: String, data_dir: Option<String>, out: Option<String> },
    /// Neither or both of `--get` and `--check`: print the usage, exit 1.
    Usage,
}

/// Exactly one of `--get` and `--check` selects a command.
pub fn command_of(cli: Cli) -> (c: Command)
    ensures
        c == (if cli.get && cli.check is None {
            Command::Get { data_dir: cli.data_dir, full: cli.full }
        } else if !cli.get && cli.check is Some {
            Command::Check { csv: cli.check->0, data_dir: cli.data_dir, out: cli.out }
        } else {
            Command::Usage
        }),
{
    match (cli.get, cli.check) {
        (true, None) => Command::Get { data_dir: cli.data_dir, full: cli.full },
        (false, Some(csv)) => Command::Check { csv, data_dir: cli.data_dir, out: cli.out },
        _ => Command::Usage,
    }
}

/// Exit status of a check: 0 without findings, 2 with.
pub fn check_exit_code(findings: usize) -> (code: i32)
    ensures
        code == (if findings == 0 {
            0i32
        } else {
            2i32
        }),
{
    if findings == 0 {
        0
    } else {
        2
    }
}

/// The report path: `--out`, else `crityoink-report.html`.
pub fn report_path(out: Option<String>) -> (p: String)
    ensures
        p@ == match out {
            Some(o) => o@,
            None => DEFAULT_REPORT@,
        },
{
    match out {
        Some(o) => o,
        None => DEFAULT_REPORT.to_owned(),
    }
}

/// The data directory: `--data-dir`, else the one that `XDG_CACHE_HOME` and
/// `HOME` give.
pub fn resolve_data_dir(explicit: Option<String>, xdg_cache: Option<&str>, home: Option<&str>) -> (d:
    String)
    ensures
        d@ == match explicit {
            Some(e) => e@,
            None => data_dir_of(
                match xdg_cache {
                    Some(x) => Some(x@),
                    None => None,
                },
                match home {
                    Some(h) => Some(h@),
                    None => None,
                },
            ),
        },
{
    match explicit {
        Some(e) => e,
        None => data_dir_from_env(xdg_cache, home),
    }
}

} // verus!
