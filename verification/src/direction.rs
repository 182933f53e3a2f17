use vstd::prelude::*;

verus! {

/// When a pane group is split horizontally, new panes are added from left to right.
/// When it is split vertically, new panes are added from top to bottom.
#[derive(PartialEq, Eq, Clone, Copy, Debug, Structural)]
pub enum SplitDirection {
    Horizontal,
    Vertical,
}

/// A direction in which a pane can be split, moved or looked up.
#[derive(PartialEq, Eq, Clone, Copy, Debug, Structural)]
pub enum Direction {
    Left,
    Right,
    Up,
    Down,
}

impl Direction {
    /// The split axis that runs along this direction.
    pub open spec fn spec_axis(&self) -> SplitDirection {
        match self {
            Direction::Left | Direction::Right => SplitDirection::Horizontal,
            Direction::Up | Direction::Down => SplitDirection::Vertical,
        }
    }

    /// Whether this direction points towards the start of a branch (left or up).
    pub open spec fn is_leading(&self) -> bool {
        self is Left || self is Up
    }

    #[verifier::when_used_as_spec(spec_axis)]
    pub fn axis(&self) -> (r: SplitDirection)
        ensures
            r == self.spec_axis(),
    {
        match self {
            Direction::Left | Direction::Right => SplitDirection::Horizontal,
            Direction::Up | Direction::Down => SplitDirection::Vertical,
        }
    }

    pub open spec fn spec_opposite(&self) -> Direction {
        match self {
            Direction::Left => Direction::Right,
            Direction::Right => Direction::Left,
            Direction::Up => Direction::Down,
            Direction::Down => Direction::Up,
        }
    }

    /// The reverse direction, used by the collapse-to-rail "retract wins" restore:
    /// pressing the opposite arrow restores the pane the focused edge retreats toward.
    #[verifier::when_used_as_spec(spec_opposite)]
    pub fn opposite(&self) -> (r: Direction)
        ensures
            r == self.spec_opposite(),
    {
        match self {
            Direction::Left => Direction::Right,
            Direction::Right => Direction::Left,
            Direction::Up => Direction::Down,
            Direction::Down => Direction::Up,
        }
    }
}

/// Reversing a direction twice gives it back, and keeps its axis.
pub proof fn lemma_opposite_involution(d: Direction)
    ensures
        d.spec_opposite().spec_opposite() == d,
        d.spec_opposite().spec_axis() == d.spec_axis(),
        d.spec_opposite() != d,
{
}

} // verus!
