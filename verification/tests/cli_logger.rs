use playback::cli::{bare_workflow_index, to_config, CliMatches, Subcommands};
use playback::logger::{enabled, level_for_verbosity, log_line, to_stderr, Level};

fn s(x: &str) -> String {
    x.to_string()
}

fn matches(verbose: usize, new_p: Option<Vec<&str>>, run_p: Option<Vec<&str>>) -> CliMatches {
    CliMatches {
        verbose,
        new_positionals: new_p.map(|v| v.into_iter().map(s).collect()),
        run_positionals: run_p.map(|v| v.into_iter().map(s).collect()),
    }
}

#[test]
fn level_names_and_colours() {
    assert_eq!(Level::Error.as_str(), "ERROR");
    assert_eq!(Level::Warn.as_str(), "WARN");
    assert_eq!(Level::Info.as_str(), "INFO");
    assert_eq!(Level::Debug.as_str(), "DEBUG");
    assert_eq!(Level::Error.colour(), "\x1b[31m");
    assert_eq!(Level::Warn.colour(), "\x1b[33m");
    assert_eq!(Level::Info.colour(), "\x1b[32m");
    assert_eq!(Level::Debug.colour(), "\x1b[36m");
}

#[test]
fn thresholds() {
    assert!(enabled(Level::Error, Level::Error));
    assert!(!enabled(Level::Warn, Level::Error));
    assert!(enabled(Level::Info, Level::Info));
    assert!(!enabled(Level::Debug, Level::Info));
    assert!(enabled(Level::Debug, Level::Debug));
    assert!(enabled(Level::Error, Level::Debug));
}

#[test]
fn verbosity_levels() {
    assert_eq!(level_for_verbosity(0), Level::Error);
    assert_eq!(level_for_verbosity(1), Level::Warn);
    assert_eq!(level_for_verbosity(2), Level::Info);
    assert_eq!(level_for_verbosity(3), Level::Debug);
    assert_eq!(level_for_verbosity(200), Level::Debug);
}

#[test]
fn log_lines() {
    assert_eq!(
        log_line(Level::Info, "cli::main", "hello"),
        "[\x1b[32mINFO \x1b[0m \x1b[90mcli::main\x1b[0m] hello"
    );
    assert_eq!(
        log_line(Level::Error, "t", "x"),
        "[\x1b[31mERROR\x1b[0m \x1b[90mt\x1b[0m] x"
    );
    assert!(to_stderr(Level::Error) && to_stderr(Level::Warn));
    assert!(!to_stderr(Level::Info) && !to_stderr(Level::Debug));
}

#[test]
fn subcommands_from_the_parser() {
    let (cmd, config) = to_config(&matches(2, Some(vec!["wf"]), None), &vec![], false);
    assert_eq!(config.verbose, 2);
    match cmd {
        Some(Subcommands::New { name }) => assert_eq!(name, "wf"),
        other => panic!("unexpected {:?}", other),
    }
    let (cmd, _) = to_config(&matches(0, None, Some(vec!["wf", "a", "b"])), &vec![], false);
    match cmd {
        Some(Subcommands::Run { name, args }) => {
            assert_eq!(name, "wf");
            assert_eq!(args, vec![s("a"), s("b")]);
        }
        other => panic!("unexpected {:?}", other),
    }
    let (cmd, _) = to_config(&matches(0, Some(vec![]), None), &vec![], false);
    match cmd {
        Some(Subcommands::New { name }) => assert_eq!(name, ""),
        other => panic!("unexpected {:?}", other),
    }
    let (_, config) = to_config(&matches(300, None, None), &vec![], false);
    assert_eq!(config.verbose, 44);
}

#[test]
fn a_bare_workflow_name_runs_it_when_its_file_exists() {
    let argv = vec![s("-v"), s("build"), s("x"), s("-y")];
    assert_eq!(bare_workflow_index(&argv), Some(1));
    let (cmd, _) = to_config(&matches(1, None, None), &argv, true);
    match cmd {
        Some(Subcommands::Run { name, args }) => {
            assert_eq!(name, "build");
            assert_eq!(args, vec![s("x"), s("-y")]);
        }
        other => panic!("unexpected {:?}", other),
    }
    let (cmd, _) = to_config(&matches(1, None, None), &argv, false);
    assert!(cmd.is_none());
    assert_eq!(bare_workflow_index(&vec![s("-v"), s("--x")]), None);
    let (cmd, _) = to_config(&matches(0, None, None), &vec![s("-v")], true);
    assert!(cmd.is_none());
}
