use vstd::prelude::*;

verus! {

/// Compiler options.
#[derive(Debug, Clone, PartialEq, Eq, Hash)]
pub struct Config {
    pub(crate) verbose: bool,
    pub(crate) timings: bool,
    pub(crate) optimize: bool,
}

/// The abstract value of a [`Config`]: (verbose, timings, optimize).
pub struct ConfigModel {
    pub verbose: bool,
    pub timings: bool,
    pub optimize: bool,
}

impl View for Config {
    type V = ConfigModel;

    closed spec fn view(&self) -> ConfigModel {
        ConfigModel { verbose: self.verbose, timings: self.timings, optimize: self.optimize }
    }
}

impl Config {
    pub fn new(verbose: bool, timings: bool, optimize: bool) -> (c: Self)
        ensures
            c@ == (ConfigModel { verbose, timings, optimize }),
    {
        Self { verbose, timings, optimize }
    }

    /// All options switched off.
    pub fn default() -> (c: Self)
        ensures
            c@ == (ConfigModel { verbose: false, timings: false, optimize: false }),
    {
        Self::new(false, false, false)
    }

    /// Whether verbose output was asked for.
    pub fn verbose(&self) -> (r: bool)
        ensures
            r == self@.verbose,
    {
        self.verbose
    }

    /// Whether timing output was asked for.
    pub fn timings(&self) -> (r: bool)
        ensures
            r == self@.timings,
    {
        self.timings
    }

    /// Whether the generated Brainfuck should be optimized.
    pub fn optimize(&self) -> (r: bool)
        ensures
            r == self@.optimize,
    {
        self.optimize
    }
}

} // verus!
