use std::str::FromStr;

use docindex::flags::{LspServer, OutputFormat, RustAnalyzer, RustAnalyzerCmd, Verbosity};
use docindex::helpers::{lint_eq_or_in_group, LintGroup, SnippetCap};

fn arguments(verbose: u32, quiet: bool) -> RustAnalyzer {
    RustAnalyzer {
        verbose,
        quiet,
        log_file: None,
        no_log_buffering: false,
        wait_dbg: false,
        subcommand: RustAnalyzerCmd::LspServer(LspServer {
            version: false,
            help: false,
            print_config_schema: false,
        }),
    }
}

#[test]
fn quiet_wins_over_verbose() {
    assert_eq!(arguments(0, false).verbosity(), Verbosity::Normal);
    assert_eq!(arguments(1, false).verbosity(), Verbosity::Verbose);
    assert_eq!(arguments(2, false).verbosity(), Verbosity::Spammy);
    assert_eq!(arguments(7, false).verbosity(), Verbosity::Spammy);
    assert_eq!(arguments(3, true).verbosity(), Verbosity::Quiet);
}

#[test]
fn csv_is_the_only_output_format() {
    assert_eq!(OutputFormat::from_str("csv"), Ok(OutputFormat::Csv));
    assert_eq!(OutputFormat::parse("csv"), Ok(OutputFormat::Csv));
    assert_eq!(OutputFormat::from_str("json"), Err("unknown output format `json`".to_string()));
    assert_eq!(OutputFormat::from_str("CSV"), Err("unknown output format `CSV`".to_string()));
    assert_eq!(OutputFormat::from_str(""), Err("unknown output format ``".to_string()));
}

#[test]
fn snippets_need_to_be_allowed() {
    assert!(SnippetCap::new(true).is_some());
    assert!(SnippetCap::new(false).is_none());
}

#[test]
fn a_lint_is_itself_or_in_its_group() {
    let groups = vec![
        LintGroup {
            label: "unused".to_string(),
            children: vec!["unused_imports".to_string(), "unused_variables".to_string()],
        },
        LintGroup { label: "clippy::style".to_string(), children: vec!["clippy::len_zero".to_string()] },
        LintGroup { label: "unused".to_string(), children: vec!["dead_code".to_string()] },
    ];

    assert!(lint_eq_or_in_group("dead_code", "dead_code", &groups));
    assert!(lint_eq_or_in_group("unused_imports", "unused", &groups));
    assert!(lint_eq_or_in_group("clippy::len_zero", "clippy::style", &groups));
    assert!(!lint_eq_or_in_group("unused_imports", "clippy::style", &groups));
    assert!(!lint_eq_or_in_group("unused_imports", "unknown", &groups));
    // The first group of a label counts.
    assert!(!lint_eq_or_in_group("dead_code", "unused", &groups));
    assert!(!lint_eq_or_in_group("unused", "unused_imports", &groups));
}
