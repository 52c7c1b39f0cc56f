use playback::config::Config;
use playback::schemas::config::decode_config;

#[test]
fn full_configuration() {
    let doc = "[workflows]\nparallel = true\nshell = \"bash\"\nmax_concurrency = 8\ncontinue_on_error = true\n[exec]\ntimeout = 10\ndry_run = true\nverbose = true\n[logging]\nlevel = \"debug\"\n[cache]\nenabled = false\ndir = \"/c\"\n";
    let c = decode_config(doc, false).unwrap();
    assert!(c.workflows.parallel);
    assert_eq!(c.workflows.shell, "bash");
    assert_eq!(c.workflows.max_concurrency, 8);
    assert!(c.workflows.continue_on_error);
    assert_eq!(c.execution.timeout, 10);
    assert!(c.execution.dry_run);
    assert!(c.execution.verbose);
    assert_eq!(c.logging.level, "debug");
    assert!(!c.cache.enabled);
    assert_eq!(c.cache.dir, "/c");
}

#[test]
fn defaults_fill_missing_keys() {
    let c = decode_config("[workflows]\n[exec]\n", false).unwrap_err();
    assert_eq!(c.display(), "missing required table 'workflows'");
    let c = decode_config("workflows = {}\nexec = {}\n", false).unwrap();
    assert!(!c.workflows.parallel);
    assert_eq!(c.workflows.shell, "sh");
    assert_eq!(c.workflows.max_concurrency, 4);
    assert!(!c.workflows.continue_on_error);
    assert_eq!(c.execution.timeout, 3000);
    assert!(!c.execution.dry_run);
    assert!(!c.execution.verbose);
    assert_eq!(c.logging.level, "info");
    assert!(c.cache.enabled);
    assert_eq!(c.cache.dir, ".playback/cache");
    let w = decode_config("workflows = {}\nexec = {}\n", true).unwrap();
    assert_eq!(w.workflows.shell, "pwsh");
}

#[test]
fn configuration_errors() {
    let err = |doc: &str| decode_config(doc, false).unwrap_err().display();
    assert_eq!(err("workflows = 1"), "'workflows' must be a table");
    assert_eq!(err("workflows = {}"), "missing required table 'exec'");
    assert_eq!(err("workflows = { parallel = 1 }\nexec = {}"), "'parallel' must be a boolean");
    assert_eq!(err("workflows = { shell = 1 }\nexec = {}"), "'shell' must be a string");
    assert_eq!(err("workflows = {}\nexec = { timeout = \"x\" }"), "'timeout' must be an integer");
    assert_eq!(err("workflows = {}\nexec = {}\nlogging = 1"), "'logging' must be a table");
    assert_eq!(err("workflows = {}\nexec = {}\ncache = 1"), "'cache' must be a table");
    assert_eq!(err("workflows = {}\nexec = {}\ncache = { dir = 2 }"), "'dir' must be a string");
    assert!(err("workflows = {").starts_with("parse error"));
}

#[test]
fn negative_integers_wrap_like_casts() {
    let c = decode_config("workflows = { max_concurrency = -1 }\nexec = { timeout = -1 }", false).unwrap();
    assert_eq!(c.workflows.max_concurrency, usize::MAX);
    assert_eq!(c.execution.timeout, u64::MAX);
}

#[test]
fn default_config_is_quiet() {
    assert_eq!(Config::default().verbose, 0);
}
