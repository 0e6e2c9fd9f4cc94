//! Grammar for the command-line arguments.

use crate::helpers::strings_equal;
use std::path::PathBuf;
use std::str::FromStr;
use vstd::prelude::*;

verus! {

#[verifier::external_type_specification]
#[verifier::external_body]
pub struct ExPathBuf(PathBuf);

/// How much the tool says while it works.
#[derive(Clone, Copy, Debug, PartialEq, Eq, Structural)]
pub enum Verbosity {
    Spammy,
    Verbose,
    Normal,
    Quiet,
}

/// The arguments of one call of the tool.
#[derive(Debug)]
pub struct RustAnalyzer {
    pub verbose: u32,
    pub quiet: bool,
    pub log_file: Option<PathBuf>,
    pub no_log_buffering: bool,
    pub wait_dbg: bool,
    pub subcommand: RustAnalyzerCmd,
}

/// The subcommand of a call with its own arguments.
#[derive(Debug)]
pub enum RustAnalyzerCmd {
    LspServer(LspServer),
    Parse(Parse),
    Symbols(Symbols),
    Highlight(Highlight),
    AnalysisStats(AnalysisStats),
    Diagnostics(Diagnostics),
    Ssr(Ssr),
    Search(Search),
    ProcMacro(ProcMacro),
    Lsif(Lsif),
}

#[derive(Debug)]
pub struct LspServer {
    pub version: bool,
    pub help: bool,
    pub print_config_schema: bool,
}

#[derive(Debug)]
pub struct Parse {
    pub no_dump: bool,
}

#[derive(Debug)]
pub struct Symbols;

#[derive(Debug)]
pub struct Highlight {
    pub rainbow: bool,
}

#[derive(Debug)]
pub struct AnalysisStats {
    pub path: PathBuf,
    pub output: Option<OutputFormat>,
    pub randomize: bool,
    pub parallel: bool,
    pub memory_usage: bool,
    pub source_stats: bool,
    pub only: Option<String>,
    pub with_deps: bool,
    pub no_sysroot: bool,
    pub disable_build_scripts: bool,
    pub disable_proc_macros: bool,
    pub skip_inference: bool,
}

#[derive(Debug)]
pub struct Diagnostics {
    pub path: PathBuf,
    pub disable_build_scripts: bool,
    pub disable_proc_macros: bool,
}

/// The rules of a structured search and replace, as they were written.
#[derive(Debug)]
pub struct Ssr {
    pub rule: Vec<String>,
}

/// The patterns of a structured search, as they were written.
#[derive(Debug)]
pub struct Search {
    pub pattern: Vec<String>,
    pub debug: Option<String>,
}

#[derive(Debug)]
pub struct ProcMacro;

#[derive(Debug)]
pub struct Lsif {
    pub path: PathBuf,
}

#[derive(Debug, PartialEq, Eq)]
pub enum OutputFormat {
    Csv,
}

impl RustAnalyzer {
    /// The verbosity that the arguments ask for: `--quiet` wins, and each
    /// `--verbose` says more, up to two.
    pub fn verbosity(&self) -> (verbosity: Verbosity)
        ensures
            verbosity == if self.quiet {
                Verbosity::Quiet
            } else if self.verbose == 0 {
                Verbosity::Normal
            } else if self.verbose == 1 {
                Verbosity::Verbose
            } else {
                Verbosity::Spammy
            },
    {
        if self.quiet {
            return Verbosity::Quiet;
        }
        match self.verbose {
            0 => Verbosity::Normal,
            1 => Verbosity::Verbose,
            _ => Verbosity::Spammy,
        }
    }
}

/// The message for a format that is not known.
pub open spec fn unknown_format_message(name: Seq<char>) -> Seq<char> {
    "unknown output format `"@ + name + "`"@
}

/// `format!` of the standard library: the text before the name, the name,
/// and the text after it.
#[verifier::external_body]
fn unknown_format(name: &str) -> (message: String)
    ensures
        message@ == unknown_format_message(name@),
{
    format!("unknown output format `{}`", name)
}

impl OutputFormat {
    /// The format that `name` names: `csv` is the only one.
    pub fn parse(name: &str) -> (result: Result<OutputFormat, String>)
        ensures
            match result {
                Ok(format) => name@ == "csv"@ && format is Csv,
                Err(message) => name@ != "csv"@ && message@ == unknown_format_message(name@),
            },
    {
        if strings_equal(name, "csv") {
            Ok(OutputFormat::Csv)
        } else {
            Err(unknown_format(name))
        }
    }
}

impl FromStr for OutputFormat {
    type Err = String;

    /// The format that `s` names, as `OutputFormat::parse` gives it.
    fn from_str(s: &str) -> (result: Result<Self, Self::Err>)
        ensures
            match result {
                Ok(format) => s@ == "csv"@ && format is Csv,
                Err(message) => s@ != "csv"@ && message@ == unknown_format_message(s@),
            },
    {
        OutputFormat::parse(s)
    }
}

} // verus!
