//! Pairwise collision counting inside one chunk of particles.

use crate::particle::{collides, Particle};
use vstd::prelude::*;
use vstd::set_lib::{
    lemma_int_range,
    lemma_len_subset,
    lemma_len_union,
    lemma_map_size_bound,
    set_int_range,
};

verus! {

/// The index pairs `(i, j)`, `i < j`, of particles of `s` that collide.
/// Every unordered pair of positions appears at most once.
pub open spec fn colliding_pairs(s: Seq<Particle>, threshold: u64) -> Set<(int, int)> {
    Set::new(|p: (int, int)| 0 <= p.0 < p.1 < s.len() && collides(s[p.0], s[p.1], threshold))
}

/// The counter after `found` more collisions. The counter is 64 bits wide
/// and wraps around.
pub open spec fn tally(counter: u64, found: nat) -> u64 {
    ((counter + found) % 0x1_0000_0000_0000_0000) as u64
}

/// A chunk of `k` particles has at most `k * (k - 1) / 2` colliding pairs.
pub proof fn lemma_pair_count_bounded(s: Seq<Particle>, threshold: u64)
    ensures
        colliding_pairs(s, threshold).finite(),
        2 * colliding_pairs(s, threshold).len() <= s.len() * (s.len() - 1),
    decreases s.len(),
{
    let n = s.len() as int;
    let all = colliding_pairs(s, threshold);
    if n == 0 {
        assert(all =~= Set::empty());
        assert(s.len() * (s.len() - 1) == 0) by (nonlinear_arith)
            requires
                s.len() == 0,
        ;
    } else {
        let shorter = s.drop_last();
        let earlier = colliding_pairs(shorter, threshold);
        lemma_pair_count_bounded(shorter, threshold);
        assert(shorter.len() == n - 1);
        let partners = set_int_range(0, n - 1);
        lemma_int_range(0, n - 1);
        let hits = partners.filter(|i: int| collides(s[i], s[n - 1], threshold));
        lemma_len_subset(hits, partners);
        let pair_up = |i: int| (i, n - 1);
        let last = hits.map(pair_up);
        lemma_map_size_bound(hits, last, pair_up);
        assert forall|p: (int, int)| all.contains(p) implies earlier.union(last).contains(p) by {
            if p.1 == n - 1 {
                assert(hits.contains(p.0) && p == pair_up(p.0));
            }
        }
        assert(all.subset_of(earlier.union(last)));
        lemma_len_union(earlier, last);
        lemma_len_subset(all, earlier.union(last));
        assert(2 * all.len() <= n * (n - 1)) by (nonlinear_arith)
            requires
                2 * earlier.len() <= (n - 1) * (n - 1 - 1),
                last.len() <= n - 1,
                all.len() <= earlier.len() + last.len(),
                n >= 1,
        ;
    }
}

/// The colliding pairs that come before `(i, j)` in scanning order: rows
/// before `i`, and columns before `j` of row `i`.
spec fn scanned(s: Seq<Particle>, threshold: u64, i: int, j: int) -> Set<(int, int)> {
    Set::new(
        |p: (int, int)|
            colliding_pairs(s, threshold).contains(p) && (p.0 < i || (p.0 == i && p.1 < j)),
    )
}

proof fn lemma_scanned_start(s: Seq<Particle>, threshold: u64)
    ensures
        scanned(s, threshold, 0, 1) =~= Set::empty(),
{
}

proof fn lemma_scanned_step(s: Seq<Particle>, threshold: u64, i: int, j: int)
    requires
        0 <= i < j < s.len(),
    ensures
        scanned(s, threshold, i, j + 1) =~= if collides(s[i], s[j], threshold) {
            scanned(s, threshold, i, j).insert((i, j))
        } else {
            scanned(s, threshold, i, j)
        },
        !scanned(s, threshold, i, j).contains((i, j)),
{
}

proof fn lemma_scanned_next_row(s: Seq<Particle>, threshold: u64, i: int, j: int)
    requires
        0 <= i < s.len(),
        j >= s.len(),
    ensures
        scanned(s, threshold, i, j) =~= scanned(s, threshold, i + 1, i + 2),
{
}

proof fn lemma_scanned_all(s: Seq<Particle>, threshold: u64, i: int, j: int)
    requires
        i >= s.len(),
    ensures
        scanned(s, threshold, i, j) =~= colliding_pairs(s, threshold),
{
}

/// Examines every unordered pair of `chunk` once and adds one to the counter
/// for each pair that collides. The particles are only read.
pub fn thread_check_collisions(chunk: &[Particle], threshold: u64, collision_counter: &mut u64)
    ensures
        colliding_pairs(chunk@, threshold).finite(),
        *final(collision_counter) == tally(
            *old(collision_counter),
            colliding_pairs(chunk@, threshold).len(),
        ),
        *old(collision_counter) + colliding_pairs(chunk@, threshold).len() <= u64::MAX
            ==> *final(collision_counter) == *old(collision_counter) + colliding_pairs(
            chunk@,
            threshold,
        ).len(),
{
    let n: usize = chunk.len();
    let mut i: usize = 0;
    proof {
        lemma_scanned_start(chunk@, threshold);
    }
    while i < n
        invariant
            i <= n,
            n == chunk@.len(),
            scanned(chunk@, threshold, i as int, i + 1).finite(),
            *collision_counter == tally(
                *old(collision_counter),
                scanned(chunk@, threshold, i as int, i + 1).len(),
            ),
        decreases n - i,
    {
        let mut j: usize = i + 1;
        while j < n
            invariant
                i < j <= n,
                n == chunk@.len(),
                scanned(chunk@, threshold, i as int, j as int).finite(),
                *collision_counter == tally(
                    *old(collision_counter),
                    scanned(chunk@, threshold, i as int, j as int).len(),
                ),
            decreases n - j,
        {
            proof {
                lemma_scanned_step(chunk@, threshold, i as int, j as int);
            }
            if chunk[i].collide(&chunk[j], threshold) {
                *collision_counter = collision_counter.wrapping_add(1);
            }
            j = j + 1;
        }
        proof {
            lemma_scanned_next_row(chunk@, threshold, i as int, j as int);
        }
        i = i + 1;
    }
    proof {
        lemma_scanned_all(chunk@, threshold, i as int, i + 1);
    }
}

} // verus!
