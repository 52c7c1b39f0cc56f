//! The configuration document: `[workflows]` and `[exec]` tables, which
//! must be present, and optional `[logging]` and `[cache]` tables; a key
//! left out takes its default.
use vstd::prelude::*;
use vstd::utf8::encode_utf8;
use crate::ast::{entries_view, SValue, Value};

use crate::parser::cursor::reports;
use crate::parser::document::parse;
use crate::parser::spec::{parse_document, table_get};
use crate::parser::table::get_entry;
use crate::schemas::SchemaError;
use crate::text::{concat3, copy_string, string_of};

verus! {

/// The `[workflows]` table of a configuration.
#[derive(Debug, Clone)]
pub struct WorkflowConfig {
    pub parallel: bool,
    pub shell: String,
    pub max_concurrency: usize,
    pub continue_on_error: bool,
}

/// The `[exec]` table of a configuration.
#[derive(Debug, Clone)]
pub struct ExecConfig {
    pub timeout: u64,
    pub dry_run: bool,
    pub verbose: bool,
}

/// The `[logging]` table of a configuration.
#[derive(Debug, Clone)]
pub struct LoggingConfig {
    pub level: String,
}

/// The `[cache]` table of a configuration.
#[derive(Debug, Clone)]
pub struct CacheConfig {
    pub enabled: bool,
    pub dir: String,
}

/// A decoded configuration.
#[derive(Debug, Clone)]
pub struct ConfigSchema {
    pub workflows: WorkflowConfig,
    pub execution: ExecConfig,
    pub logging: LoggingConfig,
    pub cache: CacheConfig,
}

/// The model of a decoded configuration: parallel, shell, maximum
/// concurrency, continue on error; timeout, dry run, verbose; log level;
/// cache enabled, cache directory.
pub struct ConfigModel {
    pub parallel: bool,
    pub shell: Seq<char>,
    pub max_concurrency: usize,
    pub continue_on_error: bool,
    pub timeout: u64,
    pub dry_run: bool,
    pub verbose: bool,
    pub level: Seq<char>,
    pub cache_enabled: bool,
    pub cache_dir: Seq<char>,
}

impl ConfigSchema {
    pub open spec fn view(&self) -> ConfigModel {
        ConfigModel {
            parallel: self.workflows.parallel,
            shell: self.workflows.shell@,
            max_concurrency: self.workflows.max_concurrency,
            continue_on_error: self.workflows.continue_on_error,
            timeout: self.execution.timeout,
            dry_run: self.execution.dry_run,
            verbose: self.execution.verbose,
            level: self.logging.level@,
            cache_enabled: self.cache.enabled,
            cache_dir: self.cache.dir@,
        }
    }
}

/// The table under `k`: present and a table, or the reason not.
pub open spec fn table_field(t: Seq<(Seq<char>, SValue)>, k: Seq<char>) -> Result<Seq<(Seq<char>, SValue)>, Seq<char>> {
    match table_get(t, k) {
        Some(SValue::Table(x)) => Ok(x),
        Some(_) => Err("'"@ + k + "' must be a table"@),
        None => Err("missing required table '"@ + k + "'"@),
    }
}

/// The boolean under `k`, `d` when absent.
pub open spec fn bool_field(t: Seq<(Seq<char>, SValue)>, k: Seq<char>, d: bool) -> Result<bool, Seq<char>> {
    match table_get(t, k) {
        Some(SValue::Boolean(b)) => Ok(b),
        Some(_) => Err("'"@ + k + "' must be a boolean"@),
        None => Ok(d),
    }
}

/// The string under `k`, `d` when absent.
pub open spec fn string_field(t: Seq<(Seq<char>, SValue)>, k: Seq<char>, d: Seq<char>) -> Result<Seq<char>, Seq<char>> {
    match table_get(t, k) {
        Some(SValue::Str(s)) => Ok(s),
        Some(_) => Err("'"@ + k + "' must be a string"@),
        None => Ok(d),
    }
}

/// The integer under `k`, `d` when absent.
pub open spec fn integer_field(t: Seq<(Seq<char>, SValue)>, k: Seq<char>, d: int) -> Result<int, Seq<char>> {
    match table_get(t, k) {
        Some(SValue::Integer(i)) => Ok(i),
        Some(_) => Err("'"@ + k + "' must be an integer"@),
        None => Ok(d),
    }
}

/// The shell that commands run in when the configuration names none.
pub open spec fn default_shell(windows: bool) -> Seq<char> {
    if windows {
        "pwsh"@
    } else {
        "sh"@
    }
}

/// The `[workflows]` table decoded: parallel, shell, maximum concurrency
/// (the integer cast to `usize`), continue on error.
pub open spec fn workflows_model(w: Seq<(Seq<char>, SValue)>, windows: bool) -> Result<(bool, Seq<char>, usize, bool), Seq<char>> {
    match bool_field(w, "parallel"@, false) {
        Err(m) => Err(m),
        Ok(parallel) => match string_field(w, "shell"@, default_shell(windows)) {
            Err(m) => Err(m),
            Ok(shell) => match integer_field(w, "max_concurrency"@, 4) {
                Err(m) => Err(m),
                Ok(n) => match bool_field(w, "continue_on_error"@, false) {
                    Err(m) => Err(m),
                    Ok(c) => Ok((parallel, shell, n as usize, c)),
                },
            },
        },
    }
}

/// The `[exec]` table decoded: timeout (the integer cast to `u64`), dry
/// run, verbose.
pub open spec fn exec_model(e: Seq<(Seq<char>, SValue)>) -> Result<(u64, bool, bool), Seq<char>> {
    match integer_field(e, "timeout"@, 3000) {
        Err(m) => Err(m),
        Ok(n) => match bool_field(e, "dry_run"@, false) {
            Err(m) => Err(m),
            Ok(d) => match bool_field(e, "verbose"@, false) {
                Err(m) => Err(m),
                Ok(v) => Ok((n as u64, d, v)),
            },
        },
    }
}

/// The log level: from the `[logging]` table when there is one.
pub open spec fn logging_model(root: Seq<(Seq<char>, SValue)>) -> Result<Seq<char>, Seq<char>> {
    match table_get(root, "logging"@) {
        Some(SValue::Table(l)) => string_field(l, "level"@, "info"@),
        Some(_) => Err("'logging' must be a table"@),
        None => Ok("info"@),
    }
}

/// The cache settings: from the `[cache]` table when there is one.
pub open spec fn cache_model(root: Seq<(Seq<char>, SValue)>) -> Result<(bool, Seq<char>), Seq<char>> {
    match table_get(root, "cache"@) {
        Some(SValue::Table(c)) => match bool_field(c, "enabled"@, true) {
            Err(m) => Err(m),
            Ok(en) => match string_field(c, "dir"@, ".playback/cache"@) {
                Err(m) => Err(m),
                Ok(d) => Ok((en, d)),
            },
        },
        Some(_) => Err("'cache' must be a table"@),
        None => Ok((true, ".playback/cache"@)),
    }
}

/// A parsed configuration decoded, each part in turn; the first error
/// stops it.
pub open spec fn config_model(root: Seq<(Seq<char>, SValue)>, windows: bool) -> Result<ConfigModel, Seq<char>> {
    match table_field(root, "workflows"@) {
        Err(m) => Err(m),
        Ok(w) => match workflows_model(w, windows) {
            Err(m) => Err(m),
            Ok(wf) => match table_field(root, "exec"@) {
                Err(m) => Err(m),
                Ok(e) => match exec_model(e) {
                    Err(m) => Err(m),
                    Ok(ex) => match logging_model(root) {
                        Err(m) => Err(m),
                        Ok(level) => match cache_model(root) {
                            Err(m) => Err(m),
                            Ok(c) => Ok(
                                ConfigModel {
                                    parallel: wf.0,
                                    shell: wf.1,
                                    max_concurrency: wf.2,
                                    continue_on_error: wf.3,
                                    timeout: ex.0,
                                    dry_run: ex.1,
                                    verbose: ex.2,
                                    level,
                                    cache_enabled: c.0,
                                    cache_dir: c.1,
                                },
                            ),
                        },
                    },
                },
            },
        },
    }
}

/// The outcome of decoding the configuration text `content`.
pub open spec fn config_outcome(r: Result<ConfigSchema, SchemaError>, content: Seq<char>, windows: bool) -> bool {
    match parse_document(content).1 {
        Err(msg) => r matches Err(SchemaError::Parse(e)) && reports(e, content, parse_document(content).0, msg),
        Ok(root) => match (r, config_model(root, windows)) {
            (Ok(c), Ok(m)) => c@ == m,
            (Err(SchemaError::Invalid(x)), Err(m)) => x@ == m,
            _ => false,
        },
    }
}

fn get_table<'a>(map: &'a Vec<(String, Value)>, key: &str) -> (r: Result<&'a Vec<(String, Value)>, String>)
    ensures
        match (r, table_field(entries_view(map@), key@)) {
            (Ok(x), Ok(y)) => entries_view(x@) == y,
            (Err(x), Err(y)) => x@ == y,
            _ => false,
        },
{
    match get_entry(map, key) {
        Some(Value::Table(t)) => Ok(t),
        Some(_) => Err(concat3("'", key, "' must be a table")),
        None => Err(concat3("missing required table '", key, "'")),
    }
}

fn get_bool(map: &Vec<(String, Value)>, key: &str, default: bool) -> (r: Result<bool, String>)
    ensures
        match (r, bool_field(entries_view(map@), key@, default)) {
            (Ok(x), Ok(y)) => x == y,
            (Err(x), Err(y)) => x@ == y,
            _ => false,
        },
{
    match get_entry(map, key) {
        Some(Value::Boolean(v)) => Ok(*v),
        Some(_) => Err(concat3("'", key, "' must be a boolean")),
        None => Ok(default),
    }
}

fn get_string(map: &Vec<(String, Value)>, key: &str, default: &str) -> (r: Result<String, String>)
    ensures
        match (r, string_field(entries_view(map@), key@, default@)) {
            (Ok(x), Ok(y)) => x@ == y,
            (Err(x), Err(y)) => x@ == y,
            _ => false,
        },
{
    match get_entry(map, key) {
        Some(Value::String(v)) => Ok(copy_string(v)),
        Some(_) => Err(concat3("'", key, "' must be a string")),
        None => Ok(string_of(default)),
    }
}

fn get_integer(map: &Vec<(String, Value)>, key: &str, default: i64) -> (r: Result<i64, String>)
    ensures
        match (r, integer_field(entries_view(map@), key@, default as int)) {
            (Ok(x), Ok(y)) => x == y,
            (Err(x), Err(y)) => x@ == y,
            _ => false,
        },
{
    match get_entry(map, key) {
        Some(Value::Integer(v)) => Ok(*v),
        Some(_) => Err(concat3("'", key, "' must be an integer")),
        None => Ok(default),
    }
}

fn decode_workflows(w: &Vec<(String, Value)>, windows: bool) -> (r: Result<WorkflowConfig, String>)
    ensures
        match (r, workflows_model(entries_view(w@), windows)) {
            (Ok(x), Ok(y)) => (x.parallel, x.shell@, x.max_concurrency, x.continue_on_error) == y,
            (Err(x), Err(y)) => x@ == y,
            _ => false,
        },
{
    let parallel = get_bool(w, "parallel", false)?;
    let shell = if windows {
        get_string(w, "shell", "pwsh")?
    } else {
        get_string(w, "shell", "sh")?
    };
    let n = get_integer(w, "max_concurrency", 4)?;
    let continue_on_error = get_bool(w, "continue_on_error", false)?;
    Ok(WorkflowConfig { parallel, shell, max_concurrency: n as usize, continue_on_error })
}

fn decode_exec(e: &Vec<(String, Value)>) -> (r: Result<ExecConfig, String>)
    ensures
        match (r, exec_model(entries_view(e@))) {
            (Ok(x), Ok(y)) => (x.timeout, x.dry_run, x.verbose) == y,
            (Err(x), Err(y)) => x@ == y,
            _ => false,
        },
{
    let timeout = get_integer(e, "timeout", 3000)?;
    let dry_run = get_bool(e, "dry_run", false)?;
    let verbose = get_bool(e, "verbose", false)?;
    Ok(ExecConfig { timeout: timeout as u64, dry_run, verbose })
}

fn decode_logging(root: &Vec<(String, Value)>) -> (r: Result<LoggingConfig, String>)
    ensures
        match (r, logging_model(entries_view(root@))) {
            (Ok(x), Ok(y)) => x.level@ == y,
            (Err(x), Err(y)) => x@ == y,
            _ => false,
        },
{
    match get_entry(root, "logging") {
        Some(Value::Table(tbl)) => Ok(LoggingConfig { level: get_string(tbl, "level", "info")? }),
        Some(_) => Err(string_of("'logging' must be a table")),
        None => Ok(LoggingConfig { level: string_of("info") }),
    }
}

fn decode_cache(root: &Vec<(String, Value)>) -> (r: Result<CacheConfig, String>)
    ensures
        match (r, cache_model(entries_view(root@))) {
            (Ok(x), Ok(y)) => (x.enabled, x.dir@) == y,
            (Err(x), Err(y)) => x@ == y,
            _ => false,
        },
{
    match get_entry(root, "cache") {
        Some(Value::Table(tbl)) => {
            let enabled = get_bool(tbl, "enabled", true)?;
            let dir = get_string(tbl, "dir", ".playback/cache")?;
            Ok(CacheConfig { enabled, dir })
        },
        Some(_) => Err(string_of("'cache' must be a table")),
        None => Ok(CacheConfig { enabled: true, dir: string_of(".playback/cache") }),
    }
}

fn decode_parsed(root: &Vec<(String, Value)>, windows: bool) -> (r: Result<ConfigSchema, String>)
    ensures
        match (r, config_model(entries_view(root@), windows)) {
            (Ok(x), Ok(y)) => x@ == y,
            (Err(x), Err(y)) => x@ == y,
            _ => false,
        },
{
    let workflows_tbl = get_table(root, "workflows")?;
    let workflows = decode_workflows(workflows_tbl, windows)?;
    let exec_tbl = get_table(root, "exec")?;
    let execution = decode_exec(exec_tbl)?;
    let logging = decode_logging(root)?;
    let cache = decode_cache(root)?;
    Ok(ConfigSchema { workflows, execution, logging, cache })
}

/// Decodes a configuration document. `windows` selects the default shell:
/// `pwsh` on Windows, `sh` elsewhere.
pub fn decode_config(content: &str, windows: bool) -> (r: Result<ConfigSchema, SchemaError>)
    requires
        content@.len() < usize::MAX,
        encode_utf8(content@).len() <= usize::MAX,
    ensures
        config_outcome(r, content@, windows),
{
    let parsed = match parse(content) {
        Ok(p) => p,
        Err(e) => {
            return Err(SchemaError::Parse(e));
        },
    };
    match decode_parsed(&parsed, windows) {
        Ok(c) => Ok(c),
        Err(m) => Err(SchemaError::Invalid(m)),
    }
}

/// What a decoded configuration holds of its document: each key that is
/// present gives its value, and each key that a table leaves out (or an
/// optional table that is left out altogether) gives its default:
/// `parallel` false, `shell` the platform's shell, `max_concurrency` 4,
/// `continue_on_error` false, `timeout` 3000, `dry_run` false, `verbose`
/// false, `level` `info`, `enabled` true, `dir` `.playback/cache`.
pub proof fn law_config_keys_and_defaults(root: Seq<(Seq<char>, SValue)>, windows: bool)
    ensures
        config_model(root, windows) is Ok ==> ({
            let m = config_model(root, windows)->Ok_0;
            let w = table_get(root, "workflows"@)->Some_0->Table_0;
            let e = table_get(root, "exec"@)->Some_0->Table_0;
            &&& table_get(root, "workflows"@) matches Some(SValue::Table(_))
            &&& table_get(root, "exec"@) matches Some(SValue::Table(_))
            &&& (table_get(w, "parallel"@) is None ==> !m.parallel)
            &&& (table_get(w, "parallel"@) == Some(SValue::Boolean(m.parallel)) || table_get(w, "parallel"@) is None)
            &&& (table_get(w, "shell"@) is None ==> m.shell == default_shell(windows))
            &&& (table_get(w, "shell"@) == Some(SValue::Str(m.shell)) || table_get(w, "shell"@) is None)
            &&& (table_get(w, "max_concurrency"@) is None ==> m.max_concurrency == 4)
            &&& (table_get(w, "max_concurrency"@) matches Some(SValue::Integer(n)) ==> m.max_concurrency == n as usize)
            &&& (table_get(w, "continue_on_error"@) is None ==> !m.continue_on_error)
            &&& (table_get(w, "continue_on_error"@) == Some(SValue::Boolean(m.continue_on_error)) || table_get(w, "continue_on_error"@) is None)
            &&& (table_get(e, "timeout"@) is None ==> m.timeout == 3000)
            &&& (table_get(e, "timeout"@) matches Some(SValue::Integer(n)) ==> m.timeout == n as u64)
            &&& (table_get(e, "dry_run"@) is None ==> !m.dry_run)
            &&& (table_get(e, "dry_run"@) == Some(SValue::Boolean(m.dry_run)) || table_get(e, "dry_run"@) is None)
            &&& (table_get(e, "verbose"@) is None ==> !m.verbose)
            &&& (table_get(e, "verbose"@) == Some(SValue::Boolean(m.verbose)) || table_get(e, "verbose"@) is None)
            &&& (table_get(root, "logging"@) is None ==> m.level == "info"@)
            &&& (table_get(root, "logging"@) matches Some(SValue::Table(l)) ==> (
                table_get(l, "level"@) is None ==> m.level == "info"@) && (table_get(l, "level"@) is None || table_get(l, "level"@) == Some(SValue::Str(m.level))))
            &&& (table_get(root, "cache"@) is None ==> m.cache_enabled && m.cache_dir == ".playback/cache"@)
            &&& (table_get(root, "cache"@) matches Some(SValue::Table(c)) ==> (
                table_get(c, "enabled"@) is None ==> m.cache_enabled) && (table_get(c, "enabled"@) is None || table_get(c, "enabled"@) == Some(SValue::Boolean(m.cache_enabled))))
            &&& (table_get(root, "cache"@) matches Some(SValue::Table(c)) ==> (
                table_get(c, "dir"@) is None ==> m.cache_dir == ".playback/cache"@) && (table_get(c, "dir"@) is None || table_get(c, "dir"@) == Some(SValue::Str(m.cache_dir))))
        }),
{
}

} // verus!
