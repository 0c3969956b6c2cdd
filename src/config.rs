//! The calculator's settings.
use vstd::prelude::*;

verus! {

/// The settings of a calculator session.
pub struct Config {
    pub mode: Mode,
}

/// Which set of operations a session offers.
#[derive(Debug, Clone, Copy, PartialEq, Eq, Structural)]
pub enum Mode {
    Basic,
    Scientific,
    Programmer,
}

impl Default for Config {
    /// A session starts in the basic mode.
    fn default() -> (r: Config)
        ensures
            r.mode == Mode::Basic,
    {
        Config { mode: Mode::Basic }
    }
}

} // verus!
