use vstd::prelude::*;

verus! {

/// The ten tile colors. The color of a clicked cell selects which rule the
/// click applies.
#[derive(PartialEq, Eq, Copy, Clone, Debug, Hash, Structural)]
pub enum Color {
    Yellow,
    Grey,
    Red,
    White,
    Orange,
    Pink,
    Purple,
    Black,
    Green,
    Blue,
}

} // verus!
