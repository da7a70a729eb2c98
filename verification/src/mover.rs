//! Bounded random walk: each particle takes one random step per tick and
//! never leaves the enclosure.

use crate::particle::{in_bounds, Particle, UNIT};
use crate::random::uniform_below;
use vstd::prelude::*;

verus! {

/// Number of distinct values of one coordinate draw. A draw `d` in
/// `0..DRAW_SPAN` stands for the displacement `d - UNIT`.
pub const DRAW_SPAN: u64 = 2_000_000;

/// Number of rejected draws after which a particle is left where it is.
pub const MAX_DRAWS: u64 = u64::MAX;

/// The position that a pair of draws proposes for `p`.
pub open spec fn proposed(p: Particle, draw_x: u64, draw_y: u64) -> (int, int) {
    (p.x + draw_x - UNIT, p.y + draw_y - UNIT)
}

/// The proposed position lies inside the enclosure.
pub open spec fn accepted(p: Particle, draw_x: u64, draw_y: u64, enclosure_size: i64) -> bool {
    let (x, y) = proposed(p, draw_x, draw_y);
    0 <= x <= enclosure_size && 0 <= y <= enclosure_size
}

/// `after` is `before` moved by one committed step: it lies inside the
/// enclosure and each coordinate changed by at least `-UNIT` and less than
/// `UNIT`.
pub open spec fn stepped(before: Particle, after: Particle, enclosure_size: i64) -> bool {
    &&& in_bounds(after, enclosure_size)
    &&& -UNIT <= after.x - before.x < UNIT
    &&& -UNIT <= after.y - before.y < UNIT
}

/// What one tick may do to a particle: commit a step, or leave it alone.
pub open spec fn advanced(before: Particle, after: Particle, enclosure_size: i64) -> bool {
    after == before || stepped(before, after, enclosure_size)
}

/// A draw below `DRAW_SPAN` proposes a displacement of at least `-UNIT` and
/// less than `UNIT` in its axis; it is more than `-UNIT` unless the draw is
/// zero.
pub proof fn lemma_displacement_bounded(p: Particle, draw_x: u64, draw_y: u64)
    requires
        draw_x < DRAW_SPAN,
        draw_y < DRAW_SPAN,
    ensures
        -UNIT <= proposed(p, draw_x, draw_y).0 - p.x < UNIT,
        -UNIT <= proposed(p, draw_x, draw_y).1 - p.y < UNIT,
        draw_x > 0 ==> -UNIT < proposed(p, draw_x, draw_y).0 - p.x,
        draw_y > 0 ==> -UNIT < proposed(p, draw_x, draw_y).1 - p.y,
{
}

/// A step keeps a particle inside the enclosure, whether or not it was
/// inside before; a particle that is left alone stays inside if it was.
pub proof fn lemma_advanced_in_bounds(before: Particle, after: Particle, enclosure_size: i64)
    requires
        advanced(before, after, enclosure_size),
        in_bounds(before, enclosure_size),
    ensures
        in_bounds(after, enclosure_size),
{
}

impl Particle {
    /// Decides one attempt of the rejection sampler: the proposed position
    /// if it is inside the enclosure, otherwise nothing.
    pub fn try_step(&self, draw_x: u64, draw_y: u64, enclosure_size: i64) -> (next: Option<
        Particle,
    >)
        ensures
            next is Some <==> accepted(*self, draw_x, draw_y, enclosure_size),
            next matches Some(q) ==> (q.x as int, q.y as int) == proposed(*self, draw_x, draw_y),
    {
        let x: i128 = self.x as i128 + draw_x as i128 - UNIT as i128;
        let y: i128 = self.y as i128 + draw_y as i128 - UNIT as i128;
        let limit: i128 = enclosure_size as i128;
        if 0 <= x && x <= limit && 0 <= y && y <= limit {
            Some(Particle { x: x as i64, y: y as i64 })
        } else {
            None
        }
    }
}

/// Moves every particle of `list` by rejection sampling: draw a displacement
/// for both axes, commit it if the particle stays inside the enclosure,
/// otherwise draw again. A particle whose draws are rejected `MAX_DRAWS`
/// times in a row stays where it is.
pub fn thread_move_particles(list: &mut [Particle], enclosure_size: i64)
    ensures
        final(list)@.len() == old(list)@.len(),
        forall|i: int|
            0 <= i < old(list)@.len() ==> advanced(
                old(list)@[i],
                #[trigger] final(list)@[i],
                enclosure_size,
            ),
        forall|i: int|
            0 <= i < old(list)@.len() && in_bounds(old(list)@[i], enclosure_size) ==> in_bounds(
                #[trigger] final(list)@[i],
                enclosure_size,
            ),
{
    let n: usize = list.len();
    let mut i: usize = 0;
    while i < n
        invariant
            i <= n,
            n == old(list)@.len(),
            list@.len() == n,
            forall|k: int|
                0 <= k < i ==> advanced(old(list)@[k], #[trigger] list@[k], enclosure_size),
            forall|k: int| i <= k < n ==> #[trigger] list@[k] == old(list)@[k],
        decreases n - i,
    {
        let p: Particle = list[i];
        let mut attempts: u64 = 0;
        while attempts < MAX_DRAWS
            invariant_except_break
                list@[i as int] == p,
            invariant
                i < n,
                list@.len() == n,
                n == old(list)@.len(),
                p == old(list)@[i as int],
                forall|k: int|
                    0 <= k < i ==> advanced(old(list)@[k], #[trigger] list@[k], enclosure_size),
                forall|k: int| i < k < n ==> #[trigger] list@[k] == old(list)@[k],
            ensures
                advanced(p, list@[i as int], enclosure_size),
            decreases MAX_DRAWS - attempts,
        {
            let draw_x: u64 = uniform_below(DRAW_SPAN);
            let draw_y: u64 = uniform_below(DRAW_SPAN);
            match p.try_step(draw_x, draw_y, enclosure_size) {
                Some(q) => {
                    list[i] = q;
                    break ;
                },
                None => {
                    attempts = attempts + 1;
                },
            }
        }
        i = i + 1;
    }
}

} // verus!
