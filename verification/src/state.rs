//! Coordinates that carry their modulus in their type, and a walk over the
//! places of the state cube.

use vstd::prelude::*;
use vstd::std_specs::ops::{AddSpecImpl, MulSpecImpl, SubSpecImpl};

verus! {

/// An integer modulo `MODULUS`, always held in `0..MODULUS`.
#[derive(Debug, Clone, Copy)]
pub struct Coord<const MODULUS: usize>(i64);

/// A column of the state.
pub type X = Coord<5>;

/// A row of the state.
pub type Y = Coord<5>;

/// A bit of a lane.
pub type Z = Coord<64>;

impl<const MODULUS: usize> Coord<MODULUS> {
    #[verifier::type_invariant]
    spec fn in_range(self) -> bool {
        0 <= self.0 < MODULUS
    }

    /// The residue that the coordinate holds.
    pub closed spec fn value(self) -> int {
        self.0 as int
    }

    /// The coordinate of `n`: its residue modulo `MODULUS`.
    pub closed spec fn at(n: int) -> Self {
        Coord((n % MODULUS as int) as i64)
    }

    /// The coordinate of `n` holds `n mod MODULUS`.
    pub proof fn lemma_at(n: int)
        requires
            0 < MODULUS <= i64::MAX,
        ensures
            Self::at(n).value() == n % MODULUS as int,
            0 <= Self::at(n).value() < MODULUS,
    {
    }

    /// A coordinate is the coordinate of the residue it holds.
    pub proof fn lemma_value(c: Self)
        requires
            0 <= c.value() < MODULUS,
        ensures
            Self::at(c.value()) == c,
    {
        vstd::arithmetic::div_mod::lemma_small_mod(c.0 as nat, MODULUS as nat);
    }

    /// Normalises `n` into `0..MODULUS`, also when `n` is negative.
    pub fn from(n: i64) -> (r: Coord<MODULUS>)
        requires
            0 < MODULUS <= i64::MAX,
        ensures
            r == Self::at(n as int),
            r.value() == n as int % MODULUS as int,
    {
        let mut x: i64 = n;
        let m: i64 = MODULUS as i64;
        while x < 0
            invariant
                0 < m == MODULUS,
                x as int % m as int == n as int % m as int,
            decreases (if x < 0 { -(x as int) } else { 0 }),
        {
            proof {
                vstd::arithmetic::div_mod::lemma_mod_add_multiples_vanish(x as int, m as int);
            }
            x += m;
        }
        while x >= m
            invariant
                0 < m == MODULUS,
                0 <= x,
                x as int % m as int == n as int % m as int,
            decreases x,
        {
            proof {
                vstd::arithmetic::div_mod::lemma_mod_sub_multiples_vanish(x as int, m as int);
            }
            x -= m;
        }
        proof {
            vstd::arithmetic::div_mod::lemma_small_mod(x as nat, m as nat);
        }
        return Coord::<MODULUS>(x);
    }

    /// The residue as an index.
    pub fn size(&self) -> (r: usize)
        ensures
            r == self.value(),
            r < MODULUS,
    {
        proof {
            use_type_invariant(self);
        }
        return self.0 as usize;
    }
}

impl<const MODULUS: usize> core::ops::Add for Coord<MODULUS> {
    type Output = Coord<MODULUS>;

    fn add(self, rhs: Self) -> (r: Coord<MODULUS>) {
        proof {
            use_type_invariant(self);
            use_type_invariant(rhs);
        }
        Self::from(self.0 + rhs.0)
    }
}

impl<const MODULUS: usize> AddSpecImpl for Coord<MODULUS> {
    open spec fn obeys_add_spec() -> bool {
        true
    }

    open spec fn add_req(self, rhs: Self) -> bool {
        0 < MODULUS <= i64::MAX / 2
    }

    open spec fn add_spec(self, rhs: Self) -> Coord<MODULUS> {
        Self::at(self.value() + rhs.value())
    }
}

impl<const MODULUS: usize> core::ops::Add<usize> for Coord<MODULUS> {
    type Output = Coord<MODULUS>;

    fn add(self, rhs: usize) -> (r: Coord<MODULUS>) {
        proof {
            use_type_invariant(self);
        }
        Self::from(self.0 + rhs as i64)
    }
}

impl<const MODULUS: usize> AddSpecImpl<usize> for Coord<MODULUS> {
    open spec fn obeys_add_spec() -> bool {
        true
    }

    open spec fn add_req(self, rhs: usize) -> bool {
        0 < MODULUS && MODULUS + rhs <= i64::MAX
    }

    open spec fn add_spec(self, rhs: usize) -> Coord<MODULUS> {
        Self::at(self.value() + rhs)
    }
}

impl<const MODULUS: usize> core::ops::Sub for Coord<MODULUS> {
    type Output = Coord<MODULUS>;

    fn sub(self, rhs: Self) -> (r: Coord<MODULUS>) {
        proof {
            use_type_invariant(self);
            use_type_invariant(rhs);
        }
        Self::from(self.0 - rhs.0)
    }
}

impl<const MODULUS: usize> SubSpecImpl for Coord<MODULUS> {
    open spec fn obeys_sub_spec() -> bool {
        true
    }

    open spec fn sub_req(self, rhs: Self) -> bool {
        0 < MODULUS <= i64::MAX
    }

    open spec fn sub_spec(self, rhs: Self) -> Coord<MODULUS> {
        Self::at(self.value() - rhs.value())
    }
}

impl<const MODULUS: usize> core::ops::Sub<usize> for Coord<MODULUS> {
    type Output = Coord<MODULUS>;

    fn sub(self, rhs: usize) -> (r: Coord<MODULUS>) {
        proof {
            use_type_invariant(self);
        }
        Self::from(self.0 - rhs as i64)
    }
}

impl<const MODULUS: usize> SubSpecImpl<usize> for Coord<MODULUS> {
    open spec fn obeys_sub_spec() -> bool {
        true
    }

    open spec fn sub_req(self, rhs: usize) -> bool {
        0 < MODULUS <= i64::MAX && rhs <= i64::MAX
    }

    open spec fn sub_spec(self, rhs: usize) -> Coord<MODULUS> {
        Self::at(self.value() - rhs)
    }
}

impl<const MODULUS: usize> core::ops::Mul<usize> for Coord<MODULUS> {
    type Output = Coord<MODULUS>;

    fn mul(self, rhs: usize) -> (r: Coord<MODULUS>) {
        proof {
            use_type_invariant(self);
            assert(0 <= self.0 * rhs <= (MODULUS - 1) * rhs) by (nonlinear_arith)
                requires
                    0 <= self.0 <= MODULUS - 1,
                    0 <= rhs,
            ;
        }
        Self::from(self.0 * rhs as i64)
    }
}

impl<const MODULUS: usize> MulSpecImpl<usize> for Coord<MODULUS> {
    open spec fn obeys_mul_spec() -> bool {
        true
    }

    open spec fn mul_req(self, rhs: usize) -> bool {
        0 < MODULUS <= i64::MAX && rhs <= i64::MAX && (MODULUS - 1) * rhs <= i64::MAX
    }

    open spec fn mul_spec(self, rhs: usize) -> Coord<MODULUS> {
        Self::at(self.value() * rhs)
    }
}

/// The place after `place` in a walk in which the axes marked in `moving`
/// move: x moves first, an axis that wraps carries into the next moving
/// axis, and a carry out of the last one ends the walk. The result holds
/// the next place and whether the walk has ended.
pub open spec fn walk_step(place: (int, int, int), moving: (bool, bool, bool)) -> (
    (int, int, int),
    bool,
) {
    let (x, y, z) = place;
    let (x1, carry_x) = if moving.0 {
        ((x + 1) % 5, (x + 1) % 5 == 0)
    } else {
        (x, true)
    };
    let (y1, carry_y) = if moving.1 && carry_x {
        ((y + 1) % 5, (y + 1) % 5 == 0)
    } else {
        (y, carry_x)
    };
    let (z1, carry_z) = if moving.2 && carry_y {
        ((z + 1) % 64, (z + 1) % 64 == 0)
    } else {
        (z, carry_y)
    };
    ((x1, y1, z1), carry_z)
}

/// How many places a walk over the axes marked in `moving` has.
pub open spec fn walk_span(moving: (bool, bool, bool)) -> int {
    (if moving.0 {
        5int
    } else {
        1int
    }) * (if moving.1 {
        5int
    } else {
        1int
    }) * (if moving.2 {
        64int
    } else {
        1int
    })
}

/// How many places of the walk lie before `place`.
pub open spec fn walk_rank(place: (int, int, int), moving: (bool, bool, bool)) -> int {
    let (x, y, z) = place;
    let high = if moving.2 {
        z
    } else {
        0
    };
    let middle = if moving.1 {
        y + 5 * high
    } else {
        high
    };
    if moving.0 {
        x + 5 * middle
    } else {
        middle
    }
}

/// A walk over the places of the state cube along one, two or all three of
/// its axes; an axis that does not move stays at 0.
#[allow(non_camel_case_types)]
pub struct State_iter {
    x_mut: bool,
    y_mut: bool,
    z_mut: bool,
    x: X,
    y: Y,
    z: Z,
    done: bool,
}

impl State_iter {
    /// The place that the next call of `next` gives out.
    pub closed spec fn place(self) -> (int, int, int) {
        (self.x.value(), self.y.value(), self.z.value())
    }

    /// Which of the axes x, y, z move.
    pub closed spec fn moving(self) -> (bool, bool, bool) {
        (self.x_mut, self.y_mut, self.z_mut)
    }

    /// Whether the walk has given out its last place.
    pub closed spec fn finished(self) -> bool {
        self.done
    }

    /// How many places are still to come.
    pub open spec fn remaining(self) -> int {
        if self.finished() {
            0
        } else {
            walk_span(self.moving()) - walk_rank(self.place(), self.moving())
        }
    }

    /// The walk over all 1600 places: x moves fastest, then y, then z.
    pub fn new() -> (r: State_iter)
        ensures
            r.place() == (0int, 0int, 0int),
            r.moving() == (true, true, true),
            !r.finished(),
            r.remaining() == 1600,
    {
        State_iter {
            x_mut: true,
            y_mut: true,
            z_mut: true,
            x: X::from(0),
            y: Y::from(0),
            z: Z::from(0),
            done: false,
        }
    }

    /// The walk over the 320 places with y at 0.
    pub fn xz() -> (r: State_iter)
        ensures
            r.place() == (0int, 0int, 0int),
            r.moving() == (true, false, true),
            !r.finished(),
            r.remaining() == 320,
    {
        State_iter { y_mut: false, ..Self::new() }
    }

    /// The walk over the 25 places with z at 0.
    pub fn xy() -> (r: State_iter)
        ensures
            r.place() == (0int, 0int, 0int),
            r.moving() == (true, true, false),
            !r.finished(),
            r.remaining() == 25,
    {
        State_iter { z_mut: false, ..Self::new() }
    }

    /// The walk over the 320 places with x at 0.
    pub fn yz() -> (r: State_iter)
        ensures
            r.place() == (0int, 0int, 0int),
            r.moving() == (false, true, true),
            !r.finished(),
            r.remaining() == 320,
    {
        State_iter { x_mut: false, ..Self::new() }
    }

    /// Gives out the place at which the walk stands and moves on; `None`
    /// once the walk has ended.
    pub fn next(&mut self) -> (r: Option<(X, Y, Z)>)
        ensures
            final(self).moving() == old(self).moving(),
            old(self).finished() ==> r is None && *final(self) == *old(self),
            !old(self).finished() ==> ({
                &&& r matches Some(given)
                &&& (given.0.value(), given.1.value(), given.2.value()) == old(self).place()
                &&& (final(self).place(), final(self).finished()) == walk_step(
                    old(self).place(),
                    old(self).moving(),
                )
                &&& final(self).remaining() == old(self).remaining() - 1
            }),
            (r is None) == (old(self).remaining() == 0),
    {
        proof {
            use_type_invariant(self.x);
            use_type_invariant(self.y);
            use_type_invariant(self.z);
        }
        if self.done {
            return None;
        }
        let res = (self.x, self.y, self.z);
        let mut flipnext = true;
        if self.x_mut {
            self.x = self.x + 1;
            flipnext = self.x.0 == 0;
        }
        if self.y_mut && flipnext {
            self.y = self.y + 1;
            flipnext = self.y.0 == 0;
        }
        if self.z_mut && flipnext {
            self.z = self.z + 1;
            flipnext = self.z.0 == 0;
        }
        self.done = flipnext;
        return Some(res);
    }
}

} // verus!
