use vstd::prelude::*;

verus! {

/// An order for one turn. `x` is a column and `y` a row.
#[derive(Clone, Debug, PartialEq, Eq)]
pub enum Action {
    Move { amount: u32, from_x: usize, from_y: usize, to_x: usize, to_y: usize },
    Build { x: usize, y: usize },
    Spawn { amount: u32, x: usize, y: usize },
    Wait,
    Message { text: String },
}

/// Units carried by the move orders of `s`.
pub open spec fn moved_units(s: Seq<Action>) -> int
    decreases s.len(),
{
    if s.len() == 0 {
        0
    } else {
        moved_units(s.drop_last()) + match s.last() {
            Action::Move { amount, .. } => amount as int,
            _ => 0,
        }
    }
}

} // verus!
