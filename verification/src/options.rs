//! What the command line settles besides the two addresses.

use vstd::prelude::*;

verus! {

/// How much a run logs.
#[derive(Clone, Copy, Debug, PartialEq, Eq, Structural)]
pub enum Verbosity {
    Info,
    Debug,
    Trace,
}

/// The level that a number of `-v` flags asks for: none for `Info`, one for `Debug`, two for
/// `Trace`. More than two ask for nothing that exists.
pub fn verbosity(flags: u8) -> (r: Option<Verbosity>)
    ensures
        r == match flags {
            0 => Some(Verbosity::Info),
            1 => Some(Verbosity::Debug),
            2 => Some(Verbosity::Trace),
            _ => None::<Verbosity>,
        },
{
    match flags {
        0 => Some(Verbosity::Info),
        1 => Some(Verbosity::Debug),
        2 => Some(Verbosity::Trace),
        _ => None,
    }
}

} // verus!
