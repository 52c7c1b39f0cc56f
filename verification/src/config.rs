//! Settings that the command line gives.
use vstd::prelude::*;

verus! {

/// How talkative the program is: the number of `-v` flags.
#[derive(Copy, Clone, Debug)]
pub struct Config {
    pub verbose: u8,
}

impl Default for Config {
    fn default() -> (r: Config)
        ensures
            r.verbose == 0,
    {
        Config { verbose: 0 }
    }
}

} // verus!
