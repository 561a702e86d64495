use vstd::prelude::*;

verus! {

/// One of the four directions of travel on the torus.
#[derive(Clone, Copy, Debug, PartialEq, Eq, Structural)]
pub enum Direction {
    Up,
    Down,
    Left,
    Right,
}

/// The direction reversed on both axes.
pub open spec fn flip(d: Direction) -> Direction {
    match d {
        Direction::Up => Direction::Down,
        Direction::Down => Direction::Up,
        Direction::Left => Direction::Right,
        Direction::Right => Direction::Left,
    }
}

/// Left and right swapped, vertical directions kept.
pub open spec fn horizontal_flip(d: Direction) -> Direction {
    match d {
        Direction::Left => Direction::Right,
        Direction::Right => Direction::Left,
        other => other,
    }
}

/// Up and down swapped, horizontal directions kept.
pub open spec fn vertical_flip(d: Direction) -> Direction {
    match d {
        Direction::Up => Direction::Down,
        Direction::Down => Direction::Up,
        other => other,
    }
}

impl Direction {
    pub fn flipped(self) -> (r: Direction)
        ensures
            r == flip(self),
    {
        match self {
            Direction::Up => Direction::Down,
            Direction::Down => Direction::Up,
            Direction::Left => Direction::Right,
            Direction::Right => Direction::Left,
        }
    }

    pub fn horizontally_flipped(self) -> (r: Direction)
        ensures
            r == horizontal_flip(self),
    {
        match self {
            Direction::Left => Direction::Right,
            Direction::Right => Direction::Left,
            other => other,
        }
    }

    pub fn vertically_flipped(self) -> (r: Direction)
        ensures
            r == vertical_flip(self),
    {
        match self {
            Direction::Up => Direction::Down,
            Direction::Down => Direction::Up,
            other => other,
        }
    }
}

/// Reversing a direction twice gives it back.
pub proof fn flip_twice(d: Direction)
    ensures
        flip(flip(d)) == d,
{
}

/// Swapping left and right, then up and down, reverses the direction.
pub proof fn horizontal_then_vertical_is_flip(d: Direction)
    ensures
        vertical_flip(horizontal_flip(d)) == flip(d),
{
}

/// The toroidal grid: `w` columns and `h` rows.
#[derive(Clone, Copy, Debug)]
pub struct Field {
    pub w: usize,
    pub h: usize,
}

/// The program counter of the abstract machine.
#[derive(Clone, Copy, Debug, PartialEq, Eq, Structural)]
pub struct State {
    pub r: usize,
    pub c: usize,
    pub direction: Direction,
    pub speed: usize,
    pub storage: usize,
}

/// Number of storages a program can address.
pub const STORAGES: usize = 28;

/// The queue storage.
pub const QUEUE: usize = 21;

impl Field {
    pub open spec fn wf(&self) -> bool {
        self.w >= 1 && self.h >= 1
    }

    /// A state whose position lies on this field, with a valid speed and storage.
    pub open spec fn holds(&self, s: State) -> bool {
        &&& s.r < self.h
        &&& s.c < self.w
        &&& s.speed == 1 || s.speed == 2
        &&& s.storage < STORAGES
    }

    /// Row and column after moving `speed` cells in the state's direction.
    /// Leaving at the top lands on the last row, at the bottom on the first;
    /// the same holds for columns.
    pub open spec fn spec_next_pos(&self, s: State) -> (usize, usize) {
        match s.direction {
            Direction::Up => if s.r >= s.speed {
                ((s.r - s.speed) as usize, s.c)
            } else {
                ((self.h - 1) as usize, s.c)
            },
            Direction::Down => if s.r + s.speed >= self.h {
                (0, s.c)
            } else {
                ((s.r + s.speed) as usize, s.c)
            },
            Direction::Left => if s.c >= s.speed {
                (s.r, (s.c - s.speed) as usize)
            } else {
                (s.r, (self.w - 1) as usize)
            },
            Direction::Right => if s.c + s.speed >= self.w {
                (s.r, 0)
            } else {
                (s.r, (s.c + s.speed) as usize)
            },
        }
    }

    pub fn next_pos(&self, state: &State) -> (r: (usize, usize))
        requires
            self.wf(),
            self.holds(*state),
        ensures
            r == self.spec_next_pos(*state),
            r.0 < self.h,
            r.1 < self.w,
    {
        match state.direction {
            Direction::Up => {
                if state.r >= state.speed {
                    (state.r - state.speed, state.c)
                } else {
                    (self.h - 1, state.c)
                }
            },
            Direction::Down => {
                if self.h - state.r <= state.speed {
                    (0, state.c)
                } else {
                    (state.r + state.speed, state.c)
                }
            },
            Direction::Left => {
                if state.c >= state.speed {
                    (state.r, state.c - state.speed)
                } else {
                    (state.r, self.w - 1)
                }
            },
            Direction::Right => {
                if self.w - state.c <= state.speed {
                    (state.r, 0)
                } else {
                    (state.r, state.c + state.speed)
                }
            },
        }
    }
}

/// The state after one step in the state's own direction.
pub open spec fn step(f: Field, s: State) -> State {
    State { r: f.spec_next_pos(s).0, c: f.spec_next_pos(s).1, ..s }
}

/// The state that reverses direction and then takes one step.
pub open spec fn reversed_step(f: Field, s: State) -> State {
    step(f, State { direction: flip(s.direction), ..s })
}

impl State {
    pub fn reverse_next(&self, field: &Field) -> (r: State)
        requires
            field.wf(),
            field.holds(*self),
        ensures
            r == reversed_step(*field, *self),
            field.holds(r),
    {
        let mut next = State { direction: self.direction.flipped(), ..*self };
        let (r, c) = field.next_pos(&next);
        next.r = r;
        next.c = c;
        next
    }
}

} // verus!
