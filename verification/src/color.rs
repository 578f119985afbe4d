use vstd::prelude::*;

verus! {

/// Side to move / piece ownership.
#[derive(Clone, Copy, PartialEq, Eq, Structural, Debug)]
pub enum Color {
    White,
    Black,
}

} // verus!
