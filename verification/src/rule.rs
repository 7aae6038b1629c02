use vstd::prelude::*;

verus! {

/// Whether cell states range over a continuum or over a few discrete values.
#[derive(Clone, Copy, Debug, PartialEq, Eq, Structural)]
pub enum StateType {
    CONTINUOUS,
    DISCRETE,
}

} // verus!
