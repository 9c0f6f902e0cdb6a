//! Codels (colored grid cells) and the four-valued direction type that
//! serves both as the direction pointer and, relationally, as the codel
//! chooser, together with the tie-break rule for geometric extrema.

use vstd::prelude::*;

use crate::pietcolor::PietColor;
use crate::pietcolor::color_diff;

verus! {

/// A single colored cell of the program image. Coordinates are fixed once
/// the cell is placed into the grid and never recomputed.
#[derive(Debug, Clone, Copy, PartialEq, Eq, Structural, Hash)]
pub struct Codel {
    pub color: PietColor,
    pub x: usize,
    pub y: usize,
}

/// A compass direction. Used as the direction pointer; the codel chooser is
/// stored as whichever of Left/Right it currently equals, and is converted
/// to an absolute direction by `relative_to` when a tie must be broken.
#[derive(Debug, Clone, Copy, PartialEq, Eq, Structural, Hash)]
pub enum Direction {
    Right,
    Left,
    Down,
    Up,
}

/// One 90-degree clockwise step: Right -> Down -> Left -> Up -> Right.
pub open spec fn rotate_spec(d: Direction) -> Direction {
    match d {
        Direction::Right => Direction::Down,
        Direction::Down => Direction::Left,
        Direction::Left => Direction::Up,
        Direction::Up => Direction::Right,
    }
}

/// The reverse of a direction; on the codel chooser it toggles Left/Right.
pub open spec fn opposite_spec(d: Direction) -> Direction {
    match d {
        Direction::Right => Direction::Left,
        Direction::Left => Direction::Right,
        Direction::Down => Direction::Up,
        Direction::Up => Direction::Down,
    }
}

/// The absolute direction named by codel chooser `cc` relative to direction
/// pointer `dp`: 90 degrees clockwise of `dp` when `cc` is Right, 90 degrees
/// counter-clockwise when `cc` is Left. Meaningful only for `cc` in
/// {Left, Right}.
pub open spec fn relative_spec(cc: Direction, dp: Direction) -> Direction {
    match dp {
        Direction::Right => if cc == Direction::Right { Direction::Down } else { Direction::Up },
        Direction::Down => if cc == Direction::Right { Direction::Left } else { Direction::Right },
        Direction::Left => if cc == Direction::Right { Direction::Up } else { Direction::Down },
        Direction::Up => if cc == Direction::Right { Direction::Right } else { Direction::Left },
    }
}

/// The unit step of a direction as an (x, y) vector, with y growing downward.
pub open spec fn vector_spec(d: Direction) -> (int, int) {
    match d {
        Direction::Right => (1, 0),
        Direction::Left => (-1, 0),
        Direction::Down => (0, 1),
        Direction::Up => (0, -1),
    }
}

/// The coordinate of a codel along the axis `d` points on, signed so that a
/// larger key always means farther in direction `d`.
pub open spec fn axis_key(c: Codel, d: Direction) -> int {
    match d {
        Direction::Right => c.x as int,
        Direction::Left => -(c.x as int),
        Direction::Down => c.y as int,
        Direction::Up => -(c.y as int),
    }
}

/// The strict order the tie-break rule induces on codels with distinct
/// coordinates: first by the axis of the direction pointer, then by the axis
/// the codel chooser names. `farther(a, b, dp, cc)` says `b` beats `a`.
pub open spec fn farther(a: Codel, b: Codel, dp: Direction, cc: Direction) -> bool {
    axis_key(a, dp) < axis_key(b, dp)
        || (axis_key(a, dp) == axis_key(b, dp)
            && axis_key(a, relative_spec(cc, dp)) < axis_key(b, relative_spec(cc, dp)))
}

impl Direction {
    /// The unit step of this direction as an (x, y) vector.
    pub fn to_vector(self) -> (r: (isize, isize))
        ensures
            r.0 == vector_spec(self).0,
            r.1 == vector_spec(self).1,
    {
        match self {
            Direction::Right => (1, 0),
            Direction::Left => (-1, 0),
            Direction::Down => (0, 1),
            Direction::Up => (0, -1),
        }
    }

    /// One 90-degree clockwise step.
    pub fn rotate(self) -> (r: Direction)
        ensures
            r == rotate_spec(self),
    {
        match self {
            Direction::Right => Direction::Down,
            Direction::Down => Direction::Left,
            Direction::Left => Direction::Up,
            Direction::Up => Direction::Right,
        }
    }

    /// The reverse direction; toggles a codel chooser between Left and Right.
    pub fn opposite(self) -> (r: Direction)
        ensures
            r == opposite_spec(self),
    {
        match self {
            Direction::Right => Direction::Left,
            Direction::Down => Direction::Up,
            Direction::Left => Direction::Right,
            Direction::Up => Direction::Down,
        }
    }

    /// Converts a codel chooser (`self`, one of Left/Right) into an absolute
    /// direction perpendicular to the direction pointer `other`.
    pub fn relative_to(self, other: Direction) -> (r: Direction)
        requires
            self == Direction::Left || self == Direction::Right,
        ensures
            r == relative_spec(self, other),
    {
        match other {
            Direction::Right => {
                if self == Direction::Right {
                    Direction::Down
                } else {
                    Direction::Up
                }
            },
            Direction::Down => {
                if self == Direction::Right {
                    Direction::Left
                } else {
                    Direction::Right
                }
            },
            Direction::Left => {
                if self == Direction::Right {
                    Direction::Up
                } else {
                    Direction::Down
                }
            },
            Direction::Up => {
                if self == Direction::Right {
                    Direction::Right
                } else {
                    Direction::Left
                }
            },
        }
    }

    /// Of two codels, the one whose coordinate lies farther along the axis
    /// `self` points on, or nothing when they tie on that axis.
    pub fn choose_codel(self, c1: &Codel, c2: &Codel) -> (r: Option<Codel>)
        ensures
            match r {
                None => axis_key(*c1, self) == axis_key(*c2, self),
                Some(c) => (c == *c1 || c == *c2) && axis_key(*c1, self) != axis_key(*c2, self)
                    && (c == *c1 ==> axis_key(*c2, self) < axis_key(*c1, self))
                    && (c == *c2 ==> axis_key(*c1, self) < axis_key(*c2, self)),
            },
    {
        match self {
            Direction::Right => {
                if c1.x > c2.x {
                    Some(*c1)
                } else if c1.x < c2.x {
                    Some(*c2)
                } else {
                    None
                }
            },
            Direction::Left => {
                if c1.x < c2.x {
                    Some(*c1)
                } else if c1.x > c2.x {
                    Some(*c2)
                } else {
                    None
                }
            },
            Direction::Up => {
                if c1.y < c2.y {
                    Some(*c1)
                } else if c1.y > c2.y {
                    Some(*c2)
                } else {
                    None
                }
            },
            Direction::Down => {
                if c1.y > c2.y {
                    Some(*c1)
                } else if c1.y < c2.y {
                    Some(*c2)
                } else {
                    None
                }
            },
        }
    }
}

impl Codel {
    /// The transition key from this codel's color to `other`'s.
    pub fn diff_to(self, other: &Codel) -> (r: (usize, usize))
        ensures
            r.0 == color_diff(self.color, other.color).0,
            r.1 == color_diff(self.color, other.color).1,
    {
        self.color.diff_to(&other.color)
    }

    /// Of two codels, the one lying farther along the direction pointer's
    /// axis, ties broken along the axis the codel chooser names. Equal codels
    /// compare to themselves; distinct codels must occupy distinct positions,
    /// so the tie-break axis always decides.
    pub fn compare_to(&self, other: &Codel, dp: Direction, cc: Direction) -> (r: Codel)
        requires
            cc == Direction::Left || cc == Direction::Right,
            *self == *other || self.x != other.x || self.y != other.y,
        ensures
            r == *self || r == *other,
            *self == *other ==> r == *self,
            *self != *other ==> (r == *other <==> farther(*self, *other, dp, cc)),
            *self != *other ==> (r == *self <==> farther(*other, *self, dp, cc)),
    {
        if *self == *other {
            *self
        } else {
            if let Some(codel) = dp.choose_codel(self, other) {
                codel
            } else {
                let sec = cc.relative_to(dp);
                proof {
                    assert(axis_key(*self, sec) != axis_key(*other, sec));
                }
                cc.relative_to(dp).choose_codel(self, other).unwrap()
            }
        }
    }
}

/// Rotating a direction four times returns it unchanged, and reversing a
/// direction twice returns it unchanged: the direction pointer cycles with
/// period four and the codel chooser toggles with period two.
pub proof fn lemma_rotate_four_opposite_twice(d: Direction)
    ensures
        rotate_spec(rotate_spec(rotate_spec(rotate_spec(d)))) == d,
        opposite_spec(opposite_spec(d)) == d,
{
}

/// `n` clockwise quarter turns applied to `d`.
pub open spec fn rotate_n(d: Direction, n: nat) -> Direction
    decreases n,
{
    if n == 0 {
        d
    } else {
        rotate_n(rotate_spec(d), (n - 1) as nat)
    }
}

/// `n` reversals applied to `d`: only the parity of `n` matters.
pub open spec fn opposite_n(d: Direction, n: nat) -> Direction
    decreases n,
{
    if n == 0 {
        d
    } else {
        opposite_n(opposite_spec(d), (n - 1) as nat)
    }
}

/// Quarter turns cycle with period four.
pub proof fn lemma_rotate_n_mod(d: Direction, n: nat)
    ensures
        rotate_n(d, n) == rotate_n(d, n % 4),
    decreases n,
{
    reveal_with_fuel(rotate_n, 6);
    if n >= 4 {
        assert(rotate_n(d, n) == rotate_n(rotate_spec(rotate_spec(rotate_spec(rotate_spec(d)))), (
        n - 4) as nat));
        lemma_rotate_four_opposite_twice(d);
        lemma_rotate_n_mod(d, (n - 4) as nat);
        assert(n % 4 == (n - 4) % 4) by {
            vstd::arithmetic::div_mod::lemma_mod_sub_multiples_vanish(n as int, 4);
        }
    }
}

/// Reversals cancel in pairs.
pub proof fn lemma_opposite_n_mod(d: Direction, n: nat)
    ensures
        opposite_n(d, n) == opposite_n(d, n % 2),
    decreases n,
{
    reveal_with_fuel(opposite_n, 4);
    if n >= 2 {
        lemma_rotate_four_opposite_twice(d);
        lemma_opposite_n_mod(d, (n - 2) as nat);
        assert(n % 2 == (n - 2) % 2) by {
            vstd::arithmetic::div_mod::lemma_mod_sub_multiples_vanish(n as int, 2);
        }
    }
}

/// The count of rotations a popped pointer operand performs: `a` clockwise
/// quarter turns when positive, none otherwise.
pub open spec fn effective_steps(a: i64) -> nat {
    if a > 0 {
        a as nat
    } else {
        0
    }
}

/// Rotates `d` clockwise `a` times when `a` is positive; a non-positive
/// operand performs no rotation.
pub fn rotate_steps(d: Direction, a: i64) -> (r: Direction)
    ensures
        r == rotate_n(d, effective_steps(a)),
{
    if a <= 0 {
        return d;
    }
    let k = (a as u64) % 4;
    proof {
        reveal_with_fuel(rotate_n, 3);
        lemma_rotate_n_mod(d, a as nat);
        assert(k == (a as nat) % 4);
    }
    let mut r = d;
    let mut i: u64 = 0;
    while i < k
        invariant
            i <= k,
            k < 4,
            r == rotate_n(d, i as nat),
        decreases k - i,
    {
        proof {
            assert(rotate_n(d, (i + 1) as nat) == rotate_n(rotate_spec(d), i as nat));
            lemma_rotate_push(d, i as nat);
        }
        r = r.rotate();
        i = i + 1;
    }
    r
}

/// Applying one more quarter turn after `n` turns equals `n` turns starting
/// one quarter later.
proof fn lemma_rotate_push(d: Direction, n: nat)
    ensures
        rotate_spec(rotate_n(d, n)) == rotate_n(d, n + 1),
    decreases n,
{
    reveal_with_fuel(rotate_n, 3);
    if n > 0 {
        lemma_rotate_push(rotate_spec(d), (n - 1) as nat);
    }
}

/// A Left/Right value stays Left or Right under any number of reversals.
pub proof fn lemma_opposite_n_keeps_lr(d: Direction, n: nat)
    requires
        d == Direction::Left || d == Direction::Right,
    ensures
        opposite_n(d, n) == Direction::Left || opposite_n(d, n) == Direction::Right,
    decreases n,
{
    if n > 0 {
        lemma_opposite_n_keeps_lr(opposite_spec(d), (n - 1) as nat);
    }
}

/// Reverses `d` `a` times when `a` is positive (so only odd operands have an
/// effect); a non-positive operand performs no reversal.
pub fn opposite_steps(d: Direction, a: i64) -> (r: Direction)
    ensures
        r == opposite_n(d, effective_steps(a)),
{
    if a <= 0 {
        return d;
    }
    proof {
        reveal_with_fuel(opposite_n, 3);
        lemma_opposite_n_mod(d, a as nat);
        assert((a as u64) % 2 == (a as nat) % 2);
    }
    if (a as u64) % 2 == 1 {
        d.opposite()
    } else {
        d
    }
}

} // verus!
