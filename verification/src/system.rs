//! The particle system: an ordered, fixed-length population and its
//! collision counter. Each phase of a tick works chunk by chunk.

use crate::mover::{advanced, thread_move_particles};
use crate::particle::{collides, in_bounds, Particle};
use crate::partition::{
    chunk_bounds,
    chunk_count,
    chunk_of,
    chunk_range,
    lemma_chunk_count,
    lemma_chunk_of_range,
    lemma_chunks_tile,
    same_chunk,
};
use crate::random::uniform_below;
use crate::scanner::{colliding_pairs, lemma_pair_count_bounded, tally, thread_check_collisions};
use vstd::prelude::*;
use vstd::set_lib::{lemma_len_subset, lemma_map_size, lemma_set_disjoint_lens};
use vstd::slice::slice_subrange;

verus! {

/// Chunk size used by a pool of four workers.
pub const NUM_OF_THREADS: usize = 4;

/// The pairs that collision detection counts: colliding pairs whose two
/// particles sit in the same chunk. A pair that straddles two chunks is
/// never examined.
pub open spec fn counted_pairs(s: Seq<Particle>, chunk_size: int, threshold: u64) -> Set<
    (int, int),
> {
    Set::new(
        |p: (int, int)|
            colliding_pairs(s, threshold).contains(p) && same_chunk(p.0, p.1, chunk_size),
    )
}

/// The counted pairs that lie in chunks before chunk `c`.
spec fn counted_before(s: Seq<Particle>, chunk_size: int, threshold: u64, c: int) -> Set<
    (int, int),
> {
    Set::new(
        |p: (int, int)|
            counted_pairs(s, chunk_size, threshold).contains(p) && chunk_of(p.0, chunk_size) < c,
    )
}

/// The colliding pairs of `s` with both indices in `[a, b)`.
spec fn pairs_between(s: Seq<Particle>, threshold: u64, a: int, b: int) -> Set<(int, int)> {
    Set::new(|p: (int, int)| a <= p.0 < p.1 < b && collides(s[p.0], s[p.1], threshold))
}

/// The colliding pairs of a subrange are those of the whole sequence that lie
/// in it, shifted to its start.
proof fn lemma_pairs_of_subrange(s: Seq<Particle>, threshold: u64, a: int, b: int)
    requires
        0 <= a <= b <= s.len(),
        colliding_pairs(s.subrange(a, b), threshold).finite(),
    ensures
        pairs_between(s, threshold, a, b).finite(),
        pairs_between(s, threshold, a, b).len() == colliding_pairs(
            s.subrange(a, b),
            threshold,
        ).len(),
{
    let local = colliding_pairs(s.subrange(a, b), threshold);
    let shift = |p: (int, int)| (p.0 + a, p.1 + a);
    let global = pairs_between(s, threshold, a, b);
    assert forall|q: (int, int)| global.contains(q) implies local.map(shift).contains(q) by {
        let p = (q.0 - a, q.1 - a);
        assert(local.contains(p) && q == shift(p));
    }
    assert(local.map(shift) =~= global);
    lemma_map_size(local, global, shift);
}

/// Scanning chunk `c` extends the counted pairs by the colliding pairs of
/// that chunk.
proof fn lemma_counted_step(s: Seq<Particle>, chunk_size: int, threshold: u64, c: int)
    requires
        chunk_size > 0,
        0 <= c < chunk_count(s.len() as int, chunk_size),
        counted_before(s, chunk_size, threshold, c).finite(),
        colliding_pairs(
            s.subrange(
                chunk_range(c, s.len() as int, chunk_size).0,
                chunk_range(c, s.len() as int, chunk_size).1,
            ),
            threshold,
        ).finite(),
    ensures
        counted_before(s, chunk_size, threshold, c + 1).finite(),
        counted_before(s, chunk_size, threshold, c + 1).len() == counted_before(
            s,
            chunk_size,
            threshold,
            c,
        ).len() + colliding_pairs(
            s.subrange(
                chunk_range(c, s.len() as int, chunk_size).0,
                chunk_range(c, s.len() as int, chunk_size).1,
            ),
            threshold,
        ).len(),
{
    let n = s.len() as int;
    let (a, b) = chunk_range(c, n, chunk_size);
    lemma_chunks_tile(c, n, chunk_size);
    lemma_pairs_of_subrange(s, threshold, a, b);
    let before = counted_before(s, chunk_size, threshold, c);
    let here = pairs_between(s, threshold, a, b);
    let after = counted_before(s, chunk_size, threshold, c + 1);
    assert forall|p: (int, int)| after.contains(p) <==> before.contains(p) || here.contains(
        p,
    ) by {
        if 0 <= p.0 < p.1 < n {
            lemma_chunk_of_range(p.0, c, n, chunk_size);
            lemma_chunk_of_range(p.1, c, n, chunk_size);
        }
    }
    assert(after =~= before.union(here));
    assert forall|p: (int, int)| !(before.contains(p) && here.contains(p)) by {
        if 0 <= p.0 < p.1 < n {
            lemma_chunk_of_range(p.0, c, n, chunk_size);
        }
    }
    assert(before.disjoint(here));
    lemma_set_disjoint_lens(before, here);
}

/// Once every chunk is scanned, every counted pair is counted.
proof fn lemma_counted_all(s: Seq<Particle>, chunk_size: int, threshold: u64)
    requires
        chunk_size > 0,
    ensures
        counted_before(s, chunk_size, threshold, chunk_count(s.len() as int, chunk_size))
            =~= counted_pairs(s, chunk_size, threshold),
        counted_before(s, chunk_size, threshold, 0) =~= Set::empty(),
{
    let n = s.len() as int;
    assert forall|p: (int, int)| counted_pairs(s, chunk_size, threshold).contains(p) implies 0
        <= chunk_of(p.0, chunk_size) < chunk_count(n, chunk_size) by {
        lemma_chunk_of_range(p.0, 0, n, chunk_size);
    }
}

/// Chunk isolation: a pair whose particles sit in different chunks is never
/// counted, however close the two are.
pub proof fn lemma_chunk_isolation(
    s: Seq<Particle>,
    chunk_size: int,
    threshold: u64,
    i: int,
    j: int,
)
    requires
        chunk_size > 0,
        !same_chunk(i, j, chunk_size),
    ensures
        !counted_pairs(s, chunk_size, threshold).contains((i, j)),
{
}

/// A pair is counted exactly when its two particles lie in the range of one
/// chunk and collide.
pub proof fn lemma_counted_in_chunk(
    s: Seq<Particle>,
    chunk_size: int,
    threshold: u64,
    i: int,
    j: int,
)
    requires
        chunk_size > 0,
        0 <= i < j < s.len(),
    ensures
        counted_pairs(s, chunk_size, threshold).contains((i, j)) <==> {
            let r = chunk_range(chunk_of(i, chunk_size), s.len() as int, chunk_size);
            r.0 <= i < j < r.1 && collides(s[i], s[j], threshold)
        },
{
    let n = s.len() as int;
    lemma_chunk_of_range(i, chunk_of(i, chunk_size), n, chunk_size);
    lemma_chunk_of_range(j, chunk_of(i, chunk_size), n, chunk_size);
}

/// When one chunk holds every particle, detection is a scan of all pairs.
pub proof fn lemma_single_chunk(s: Seq<Particle>, chunk_size: int, threshold: u64)
    requires
        chunk_size >= s.len(),
        chunk_size > 0,
    ensures
        counted_pairs(s, chunk_size, threshold) == colliding_pairs(s, threshold),
{
    let n = s.len() as int;
    assert forall|p: (int, int)| colliding_pairs(s, threshold).contains(p) implies same_chunk(
        p.0,
        p.1,
        chunk_size,
    ) by {
        lemma_chunk_of_range(p.0, 0, n, chunk_size);
        lemma_chunk_of_range(p.1, 0, n, chunk_size);
    }
    assert(counted_pairs(s, chunk_size, threshold) =~= colliding_pairs(s, threshold));
}

/// Detection by chunks never counts more than a scan of all pairs would.
pub proof fn lemma_counted_at_most_all(s: Seq<Particle>, chunk_size: int, threshold: u64)
    ensures
        counted_pairs(s, chunk_size, threshold).finite(),
        counted_pairs(s, chunk_size, threshold).len() <= colliding_pairs(s, threshold).len(),
{
    lemma_pair_count_bounded(s, threshold);
    lemma_len_subset(counted_pairs(s, chunk_size, threshold), colliding_pairs(s, threshold));
}

/// While the counter does not wrap around, it never decreases: it grows by
/// exactly the number of collisions found.
pub proof fn lemma_tally_monotonic(counter: u64, found: nat)
    requires
        counter + found <= u64::MAX,
    ensures
        tally(counter, found) == counter + found,
        tally(counter, found) >= counter,
{
}

/// Detecting twice on particles that did not move counts every pair twice.
pub proof fn lemma_tally_twice(counter: u64, found: nat)
    ensures
        tally(tally(counter, found), found) == tally(counter, 2 * found),
        counter + 2 * found <= u64::MAX ==> tally(tally(counter, found), found) == counter + 2
            * found,
{
    lemma_tally_additive(counter, found, found);
}

/// Counting in two goes gives the same counter as counting at once.
pub proof fn lemma_tally_additive(counter: u64, first: nat, second: nat)
    ensures
        tally(tally(counter, first), second) == tally(counter, first + second),
{
}

/// A population of particles and the number of collisions seen so far.
pub struct ParticleSystem {
    particles: Vec<Particle>,
    collision_counter: u64,
}

impl ParticleSystem {
    /// The particles, in their fixed order.
    pub closed spec fn positions(&self) -> Seq<Particle> {
        self.particles@
    }

    /// The collision counter.
    pub closed spec fn collisions(&self) -> u64 {
        self.collision_counter
    }

    /// Every particle lies inside the enclosure.
    pub open spec fn within(&self, enclosure_size: i64) -> bool {
        forall|i: int|
            0 <= i < self.positions().len() ==> in_bounds(
                #[trigger] self.positions()[i],
                enclosure_size,
            )
    }

    /// Creates `num_particles` particles at random positions of
    /// `[0, max_x) x [0, max_y)`, with a counter of zero.
    pub fn new(num_particles: usize, max_x: i64, max_y: i64) -> (system: ParticleSystem)
        requires
            num_particles > 0,
            max_x > 0,
            max_y > 0,
        ensures
            system.positions().len() == num_particles,
            system.collisions() == 0,
            forall|i: int|
                0 <= i < num_particles ==> 0 <= (#[trigger] system.positions()[i]).x < max_x && 0
                    <= system.positions()[i].y < max_y,
            forall|enclosure_size: i64|
                max_x <= enclosure_size && max_y <= enclosure_size ==> #[trigger] system.within(
                    enclosure_size,
                ),
    {
        let mut particles: Vec<Particle> = Vec::new();
        let mut i: usize = 0;
        while i < num_particles
            invariant
                i <= num_particles,
                max_x > 0,
                max_y > 0,
                particles@.len() == i,
                forall|k: int|
                    0 <= k < i ==> 0 <= (#[trigger] particles@[k]).x < max_x && 0
                        <= particles@[k].y < max_y,
            decreases num_particles - i,
        {
            let x: u64 = uniform_below(max_x as u64);
            let y: u64 = uniform_below(max_y as u64);
            particles.push(Particle::new(x as i64, y as i64));
            i = i + 1;
        }
        ParticleSystem { particles, collision_counter: 0 }
    }

    /// Creates a system of the given particles, with a counter of zero.
    pub fn with_particles(particles: Vec<Particle>) -> (system: ParticleSystem)
        requires
            particles@.len() > 0,
        ensures
            system.positions() == particles@,
            system.collisions() == 0,
    {
        ParticleSystem { particles, collision_counter: 0 }
    }

    /// Moves every particle by one random step that keeps it inside the
    /// enclosure, one chunk of `workers` particles after the other. Order
    /// and number of the particles stay as they are, and so does the counter.
    pub fn move_particles(&mut self, enclosure_size: i64, workers: usize)
        requires
            workers > 0,
        ensures
            final(self).positions().len() == old(self).positions().len(),
            forall|i: int|
                0 <= i < old(self).positions().len() ==> advanced(
                    old(self).positions()[i],
                    #[trigger] final(self).positions()[i],
                    enclosure_size,
                ),
            old(self).within(enclosure_size) ==> final(self).within(enclosure_size),
            final(self).collisions() == old(self).collisions(),
    {
        let n: usize = self.particles.len();
        let bounds = chunk_bounds(n, workers);
        let ghost before = self.particles@;
        let mut rest: &mut [Particle] = self.particles.as_mut_slice();
        let ghost whole: Seq<Particle> = final(rest)@;
        let ghost mut moved: Seq<Particle> = Seq::empty();
        let mut c: usize = 0;
        proof {
            if 0 < bounds@.len() {
                lemma_chunks_tile(0, n as int, workers as int);
            } else {
                lemma_chunk_count(n as int, workers as int);
            }
        }
        while c < bounds.len()
            invariant
                workers > 0,
                c <= bounds@.len(),
                before.len() == n,
                bounds@.len() == chunk_count(n as int, workers as int),
                forall|k: int|
                    0 <= k < bounds@.len() ==> (#[trigger] bounds@[k].0 as int, bounds@[k].1 as int)
                        == chunk_range(k, n as int, workers as int),
                moved.len() <= n,
                c < bounds@.len() ==> moved.len() == chunk_range(c as int, n as int, workers as int).0,
                c == bounds@.len() ==> moved.len() == n,
                rest@ == before.subrange(moved.len() as int, n as int),
                forall|k: int|
                    0 <= k < moved.len() ==> advanced(before[k], #[trigger] moved[k], enclosure_size),
                whole == moved + final(rest)@,
            decreases bounds@.len() - c,
        {
            let (a, b) = bounds[c];
            proof {
                assert((a as int, b as int) == chunk_range(c as int, n as int, workers as int));
                lemma_chunks_tile(c as int, n as int, workers as int);
            }
            let (head, tail) = rest.split_at_mut(b - a);
            thread_move_particles(head, enclosure_size);
            proof {
                moved = moved + head@;
            }
            rest = tail;
            c = c + 1;
        }
        assert(self.particles@ == moved);
    }

    /// Counts, chunk by chunk, the pairs of particles that are within
    /// `threshold` of each other, and adds their number to the counter. Only
    /// pairs inside one chunk of `workers` particles are compared. The
    /// particles are not touched.
    pub fn check_collisions(&mut self, threshold: u64, workers: usize)
        requires
            workers > 0,
        ensures
            final(self).positions() == old(self).positions(),
            counted_pairs(old(self).positions(), workers as int, threshold).finite(),
            final(self).collisions() == tally(
                old(self).collisions(),
                counted_pairs(old(self).positions(), workers as int, threshold).len(),
            ),
            old(self).collisions() + counted_pairs(
                old(self).positions(),
                workers as int,
                threshold,
            ).len() <= u64::MAX ==> final(self).collisions() >= old(self).collisions(),
    {
        let n: usize = self.particles.len();
        let bounds = chunk_bounds(n, workers);
        proof {
            lemma_counted_all(self.particles@, workers as int, threshold);
        }
        let mut c: usize = 0;
        while c < bounds.len()
            invariant
                workers > 0,
                c <= bounds@.len(),
                self.particles@ == old(self).particles@,
                self.particles@.len() == n,
                bounds@.len() == chunk_count(n as int, workers as int),
                forall|k: int|
                    0 <= k < bounds@.len() ==> (#[trigger] bounds@[k].0 as int, bounds@[k].1 as int)
                        == chunk_range(k, n as int, workers as int),
                counted_before(self.particles@, workers as int, threshold, c as int).finite(),
                self.collision_counter == tally(
                    old(self).collision_counter,
                    counted_before(self.particles@, workers as int, threshold, c as int).len(),
                ),
            decreases bounds@.len() - c,
        {
            let (a, b) = bounds[c];
            proof {
                assert((a as int, b as int) == chunk_range(c as int, n as int, workers as int));
                lemma_chunks_tile(c as int, n as int, workers as int);
            }
            let chunk = slice_subrange(self.particles.as_slice(), a, b);
            let ghost seen = counted_before(self.particles@, workers as int, threshold, c as int).len();
            thread_check_collisions(chunk, threshold, &mut self.collision_counter);
            proof {
                lemma_counted_step(self.particles@, workers as int, threshold, c as int);
                lemma_tally_additive(
                    old(self).collision_counter,
                    seen,
                    colliding_pairs(chunk@, threshold).len(),
                );
            }
            c = c + 1;
        }
    }

    /// The particles, in their fixed order.
    pub fn particles(&self) -> (list: &[Particle])
        ensures
            list@ == self.positions(),
    {
        self.particles.as_slice()
    }

    /// The particles, open to being moved in place. Their number cannot
    /// change, and the counter is left alone.
    pub fn particles_mut(&mut self) -> (list: &mut [Particle])
        ensures
            list@ == old(self).positions(),
            final(self).positions() == final(list)@,
            final(self).collisions() == old(self).collisions(),
    {
        self.particles.as_mut_slice()
    }

    /// Adds `found` collisions to the counter.
    pub fn record_collisions(&mut self, found: u64)
        ensures
            final(self).positions() == old(self).positions(),
            final(self).collisions() == tally(old(self).collisions(), found as nat),
    {
        self.collision_counter = self.collision_counter.wrapping_add(found);
    }

    /// The number of collisions counted so far.
    pub fn collision_count(&self) -> (count: u64)
        ensures
            count == self.collisions(),
    {
        self.collision_counter
    }
}

} // verus!
