//! Command line arguments.

use vstd::prelude::*;

verus! {

/// Where the config file is looked for.
#[derive(Debug)]
pub struct Cli<P> {
    /// The positional argument, the environment variable or the default.
    pub config: P,
    /// The `-c` / `--config` option, which overrides the positional argument.
    pub config_flag: Option<P>,
}

impl<P> Cli<P> {
    /// Config file actually used: `-c/--config` wins over the positional argument (env var +
    /// default).
    pub fn config_path(&self) -> (path: &P)
        ensures
            *path == (match self.config_flag {
                Some(path) => path,
                None => self.config,
            }),
    {
        match &self.config_flag {
            Some(path) => path,
            None => &self.config,
        }
    }
}

} // verus!
