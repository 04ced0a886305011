//! The arguments of a run, as the command line gives them.
use crate::text::same_text;
use vstd::prelude::*;

verus! {

/// What a run is started with: the descriptor of the tests, the log level,
/// the descriptor of the libraries, a test to single out, and whether tests
/// run serially by default.
#[derive(Debug)]
pub struct RunArgs {
    pub test_cfg: String,
    pub log_lvl: String,
    pub libs_cfg: String,
    pub debug_test: Option<String>,
    pub serial: bool,
}

/// The log level that a word of the command line stands for: `1` or `error`
/// for errors, `2` or `warn` for warnings, `4` or `debug` for everything,
/// and `info` for anything else.
pub open spec fn log_level(word: Seq<char>) -> Seq<char> {
    if word == "1"@ || word == "error"@ {
        "error"@
    } else if word == "2"@ || word == "warn"@ {
        "warn"@
    } else if word == "4"@ || word == "debug"@ {
        "debug"@
    } else {
        "info"@
    }
}

/// The log level that a word of the command line stands for.
pub fn normalize_log_level(word: &str) -> (level: String)
    ensures
        level@ == log_level(word@),
{
    if same_text(word, "1") || same_text(word, "error") {
        "error".to_owned()
    } else if same_text(word, "2") || same_text(word, "warn") {
        "warn".to_owned()
    } else if same_text(word, "4") || same_text(word, "debug") {
        "debug".to_owned()
    } else {
        "info".to_owned()
    }
}

impl RunArgs {
    /// The arguments of a run from what the command line held: the paths of
    /// the two descriptors, the word for the log level if one was given,
    /// the test to single out if any, and the serial flag.
    pub fn from_parts(
        test_cfg: String,
        libs_cfg: String,
        log: Option<String>,
        debug_test: Option<String>,
        serial: bool,
    ) -> (r: RunArgs)
        ensures
            r.test_cfg == test_cfg,
            r.libs_cfg == libs_cfg,
            r.log_lvl@ == match log {
                Some(word) => log_level(word@),
                None => "info"@,
            },
            r.debug_test == debug_test,
            r.serial == serial,
    {
        let log_lvl = match &log {
            Some(word) => normalize_log_level(word.as_str()),
            None => "info".to_owned(),
        };
        RunArgs { test_cfg, log_lvl, libs_cfg, debug_test, serial }
    }
}

} // verus!
