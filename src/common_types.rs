use vstd::prelude::*;

verus! {

/// Integer type of a base, which is also the size of every matchup.
pub type BaseInt = u16;

/// Integer type of a network size and of the item indices in it.
pub type InputInt = u32;

} // verus!
