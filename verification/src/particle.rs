//! A particle is a position on a square grid with `UNIT` steps per unit of
//! length. All coordinates and distances in this crate are counted in steps.

use vstd::prelude::*;

verus! {

/// Grid steps per unit of length.
pub const UNIT: i64 = 1_000_000;

/// A point particle, identified only by where it stands.
#[derive(Clone, Copy, Debug, PartialEq, Eq, Structural)]
pub struct Particle {
    pub x: i64,
    pub y: i64,
}

/// Squared Euclidean distance between two particles.
pub open spec fn dist_sq(a: Particle, b: Particle) -> int {
    (a.x - b.x) * (a.x - b.x) + (a.y - b.y) * (a.y - b.y)
}

/// Two particles collide when they are no further apart than `threshold`.
/// The boundary is inclusive.
pub open spec fn collides(a: Particle, b: Particle, threshold: u64) -> bool {
    dist_sq(a, b) <= threshold * threshold
}

/// Both coordinates lie in `[0, enclosure_size]`.
pub open spec fn in_bounds(p: Particle, enclosure_size: i64) -> bool {
    0 <= p.x <= enclosure_size && 0 <= p.y <= enclosure_size
}

/// Collision does not depend on the order of the two particles.
pub proof fn lemma_collide_symmetric(a: Particle, b: Particle, threshold: u64)
    ensures
        collides(a, b, threshold) == collides(b, a, threshold),
{
    assert((a.x - b.x) * (a.x - b.x) == (b.x - a.x) * (b.x - a.x)) by (nonlinear_arith);
    assert((a.y - b.y) * (a.y - b.y) == (b.y - a.y) * (b.y - a.y)) by (nonlinear_arith);
}

/// The threshold is exact and inclusive: two particles at distance `d`
/// collide exactly when `d <= threshold`. So they collide at distance
/// `threshold`, and no longer at any greater distance.
pub proof fn lemma_threshold_exact(a: Particle, b: Particle, threshold: u64, d: nat)
    requires
        dist_sq(a, b) == d * d,
    ensures
        collides(a, b, threshold) <==> d <= threshold,
{
    let t = threshold as int;
    if d <= t {
        assert(d * d <= t * t) by (nonlinear_arith)
            requires
                0 <= d <= t,
        ;
    } else {
        assert(d * d > t * t) by (nonlinear_arith)
            requires
                0 <= t < d,
        ;
    }
}

/// Absolute difference of two coordinates.
fn gap(a: i64, b: i64) -> (d: u64)
    ensures
        d == if a >= b { a - b } else { b - a },
{
    if a >= b {
        (a as i128 - b as i128) as u64
    } else {
        (b as i128 - a as i128) as u64
    }
}

/// Square of a 64-bit value, which always fits 128 bits.
fn square(d: u64) -> (s: u128)
    ensures
        s == d * d,
{
    assert(d * d <= 0xffff_ffff_ffff_ffff * 0xffff_ffff_ffff_ffff) by (nonlinear_arith)
        requires
            0 <= d <= 0xffff_ffff_ffff_ffff,
    ;
    (d as u128) * (d as u128)
}

impl Particle {
    pub fn new(x: i64, y: i64) -> (p: Particle)
        ensures
            p.x == x,
            p.y == y,
    {
        Particle { x, y }
    }

    /// Whether `self` and `other` are within `threshold` of each other,
    /// decided on squared distances so that no root is taken.
    pub fn collide(&self, other: &Particle, threshold: u64) -> (hit: bool)
        ensures
            hit == collides(*self, *other, threshold),
    {
        let dx2: u128 = square(gap(self.x, other.x));
        let dy2: u128 = square(gap(self.y, other.y));
        let limit: u128 = square(threshold);
        assert(dx2 == (self.x - other.x) * (self.x - other.x)) by (nonlinear_arith)
            requires
                dx2 == (if self.x >= other.x { self.x - other.x } else { other.x - self.x })
                    * (if self.x >= other.x { self.x - other.x } else { other.x - self.x }),
        ;
        assert(dy2 == (self.y - other.y) * (self.y - other.y)) by (nonlinear_arith)
            requires
                dy2 == (if self.y >= other.y { self.y - other.y } else { other.y - self.y })
                    * (if self.y >= other.y { self.y - other.y } else { other.y - self.y }),
        ;
        match dx2.checked_add(dy2) {
            Some(sum) => sum <= limit,
            None => false,
        }
    }
}

} // verus!
