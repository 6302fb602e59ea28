//! Where the log is kept.
use vstd::prelude::*;

verus! {

/// The settings of the log.
#[derive(Clone, Debug)]
pub struct Config {
    /// The path of the log file.
    pub log_file: String,
}

impl Default for Config {
    /// The log file `action_log.json` in the working directory.
    fn default() -> (r: Config)
        ensures
            r.log_file@ == "action_log.json"@,
    {
        Config { log_file: String::from_str("action_log.json") }
    }
}

} // verus!
