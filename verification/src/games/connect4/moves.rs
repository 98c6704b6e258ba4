use vstd::prelude::*;

verus! {

/// A move: the column, counted from zero, that the disc is dropped into.
#[derive(Clone, Copy, PartialEq, Eq, Debug)]
pub struct Move(pub u16);

impl From<u16> for Move {
    fn from(mov: u16) -> (m: Move)
        ensures
            m.0 == mov,
    {
        Move(mov)
    }
}

impl vstd::std_specs::convert::FromSpecImpl<u16> for Move {
    open spec fn obeys_from_spec() -> bool {
        true
    }

    open spec fn from_spec(mov: u16) -> Move {
        Move(mov)
    }
}

impl From<Move> for u16 {
    fn from(mov: Move) -> (code: u16)
        ensures
            code == mov.0,
    {
        mov.0
    }
}

impl vstd::std_specs::convert::FromSpecImpl<Move> for u16 {
    open spec fn obeys_from_spec() -> bool {
        true
    }

    open spec fn from_spec(mov: Move) -> u16 {
        mov.0
    }
}

} // verus!
