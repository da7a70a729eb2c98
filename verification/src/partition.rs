//! Splitting `n` particles into contiguous chunks of a fixed size. The last
//! chunk is shorter when `n` is not a multiple of the chunk size.

use vstd::arithmetic::div_mod::{
    lemma_fundamental_div_mod,
    lemma_fundamental_div_mod_converse,
    lemma_mod_bound,
};
use vstd::prelude::*;

verus! {

/// How many chunks `n` particles fall into.
pub open spec fn chunk_count(n: int, chunk_size: int) -> int {
    (n + chunk_size - 1) / chunk_size
}

/// The half-open index range `[start, end)` of chunk `c`.
pub open spec fn chunk_range(c: int, n: int, chunk_size: int) -> (int, int) {
    (
        c * chunk_size,
        if c * chunk_size + chunk_size <= n {
            c * chunk_size + chunk_size
        } else {
            n
        },
    )
}

/// `bounds` lists the chunks of `n` particles in order.
pub open spec fn is_partition(bounds: Seq<(usize, usize)>, n: int, chunk_size: int) -> bool {
    &&& bounds.len() == chunk_count(n, chunk_size)
    &&& forall|c: int|
        0 <= c < bounds.len() ==> (#[trigger] bounds[c].0 as int, bounds[c].1 as int)
            == chunk_range(c, n, chunk_size)
}

/// The partition is a function of the particle count and the chunk size
/// alone: two partitions of the same `n` by the same `chunk_size` are equal.
pub proof fn lemma_partition_unique(
    first: Seq<(usize, usize)>,
    second: Seq<(usize, usize)>,
    n: int,
    chunk_size: int,
)
    requires
        is_partition(first, n, chunk_size),
        is_partition(second, n, chunk_size),
    ensures
        first == second,
{
    assert forall|c: int| 0 <= c < first.len() implies first[c] == second[c] by {
        assert((first[c].0 as int, first[c].1 as int) == chunk_range(c, n, chunk_size));
        assert((second[c].0 as int, second[c].1 as int) == chunk_range(c, n, chunk_size));
    }
    assert(first =~= second);
}

/// The chunk that holds index `i`.
pub open spec fn chunk_of(i: int, chunk_size: int) -> int {
    i / chunk_size
}

/// Two indices fall into one chunk.
pub open spec fn same_chunk(i: int, j: int, chunk_size: int) -> bool {
    chunk_of(i, chunk_size) == chunk_of(j, chunk_size)
}

/// An index lies in chunk `c` exactly when it lies in that chunk's range.
pub proof fn lemma_chunk_of_range(i: int, c: int, n: int, chunk_size: int)
    requires
        chunk_size > 0,
        0 <= i < n,
    ensures
        chunk_of(i, chunk_size) == c <==> chunk_range(c, n, chunk_size).0 <= i < chunk_range(
            c,
            n,
            chunk_size,
        ).1,
        0 <= chunk_of(i, chunk_size) < chunk_count(n, chunk_size),
{
    let q = i / chunk_size;
    let r = i % chunk_size;
    lemma_fundamental_div_mod(i, chunk_size);
    lemma_mod_bound(i, chunk_size);
    assert(chunk_size * q == q * chunk_size) by (nonlinear_arith);
    if c * chunk_size <= i < c * chunk_size + chunk_size {
        lemma_fundamental_div_mod_converse(i, chunk_size, c, i - c * chunk_size);
    }
    assert(q >= 0) by (nonlinear_arith)
        requires
            q * chunk_size + r == i,
            i >= 0,
            r < chunk_size,
            chunk_size > 0,
    ;
    lemma_chunk_count(n, chunk_size);
    let k = chunk_count(n, chunk_size);
    assert(q < k) by (nonlinear_arith)
        requires
            q * chunk_size <= i,
            i < n,
            n <= k * chunk_size,
            chunk_size > 0,
    ;
}

/// The chunk count is the least `k` with `k * chunk_size >= n`.
pub proof fn lemma_chunk_count(n: int, chunk_size: int)
    requires
        chunk_size > 0,
        n >= 0,
    ensures
        chunk_count(n, chunk_size) >= 0,
        chunk_count(n, chunk_size) * chunk_size >= n,
        (chunk_count(n, chunk_size) - 1) * chunk_size < n || chunk_count(n, chunk_size) == 0,
{
    let x = n + chunk_size - 1;
    let k = x / chunk_size;
    let r = x % chunk_size;
    lemma_fundamental_div_mod(x, chunk_size);
    lemma_mod_bound(x, chunk_size);
    assert(chunk_size * k == k * chunk_size) by (nonlinear_arith);
    assert((k - 1) * chunk_size == k * chunk_size - chunk_size) by (nonlinear_arith);
    assert(k >= 0) by (nonlinear_arith)
        requires
            k * chunk_size + r == x,
            x >= 0,
            r < chunk_size,
            chunk_size > 0,
    ;
}

/// The chunks tile `0..n` in order: chunk `c` is not empty and no longer
/// than `chunk_size`, the first chunk starts at `0`, each chunk starts where
/// the one before ends, and the last ends at `n`.
pub proof fn lemma_chunks_tile(c: int, n: int, chunk_size: int)
    requires
        chunk_size > 0,
        0 <= c < chunk_count(n, chunk_size),
    ensures
        0 <= chunk_range(c, n, chunk_size).0 < chunk_range(c, n, chunk_size).1 <= n,
        chunk_range(c, n, chunk_size).1 - chunk_range(c, n, chunk_size).0 <= chunk_size,
        chunk_range(0, n, chunk_size).0 == 0,
        c + 1 < chunk_count(n, chunk_size) ==> chunk_range(c, n, chunk_size).1 == chunk_range(
            c + 1,
            n,
            chunk_size,
        ).0,
        c + 1 == chunk_count(n, chunk_size) ==> chunk_range(c, n, chunk_size).1 == n,
{
    let k = chunk_count(n, chunk_size);
    if n < 0 {
        assert(k <= 0) by (nonlinear_arith)
            requires
                k == (n + chunk_size - 1) / chunk_size,
                n + chunk_size - 1 < chunk_size,
                chunk_size > 0,
        ;
    }
    lemma_chunk_count(n, chunk_size);
    assert((c + 1) * chunk_size == c * chunk_size + chunk_size) by (nonlinear_arith);
    assert(c * chunk_size >= 0) by (nonlinear_arith)
        requires
            c >= 0,
            chunk_size > 0,
    ;
    assert(c * chunk_size <= (k - 1) * chunk_size) by (nonlinear_arith)
        requires
            c <= k - 1,
            chunk_size > 0,
    ;
    if c + 1 < k {
        assert((c + 1) * chunk_size <= (k - 1) * chunk_size) by (nonlinear_arith)
            requires
                c + 1 <= k - 1,
                chunk_size > 0,
        ;
    } else {
        assert((c + 1) * chunk_size == k * chunk_size);
    }
}

/// A count `k` that covers `n` with no chunk to spare is the chunk count.
proof fn lemma_chunk_count_is(n: int, chunk_size: int, k: int)
    requires
        chunk_size > 0,
        n >= 0,
        k >= 0,
        k * chunk_size >= n,
        k == 0 || (k - 1) * chunk_size < n,
    ensures
        k == chunk_count(n, chunk_size),
{
    if k == 0 {
        assert(n == 0);
        lemma_fundamental_div_mod_converse(chunk_size - 1, chunk_size, 0, chunk_size - 1);
    } else {
        assert((k - 1) * chunk_size == k * chunk_size - chunk_size) by (nonlinear_arith);
        let r = n + chunk_size - 1 - k * chunk_size;
        lemma_fundamental_div_mod_converse(n + chunk_size - 1, chunk_size, k, r);
    }
}

/// The chunks of `n` particles, in order, as index ranges. The result
/// depends on nothing but `n` and `chunk_size`.
pub fn chunk_bounds(n: usize, chunk_size: usize) -> (bounds: Vec<(usize, usize)>)
    requires
        chunk_size > 0,
    ensures
        is_partition(bounds@, n as int, chunk_size as int),
{
    let mut bounds: Vec<(usize, usize)> = Vec::new();
    let mut start: usize = 0;
    assert(bounds@.len() * chunk_size == 0) by (nonlinear_arith)
        requires
            bounds@.len() == 0,
    ;
    while start < n
        invariant
            chunk_size > 0,
            start <= n,
            start == n || start == bounds@.len() * chunk_size,
            bounds@.len() * chunk_size >= start,
            bounds@.len() == 0 || (bounds@.len() - 1) * chunk_size < n,
            forall|c: int|
                0 <= c < bounds@.len() ==> (#[trigger] bounds@[c].0 as int, bounds@[c].1 as int)
                    == chunk_range(c, n as int, chunk_size as int),
        decreases n - start,
    {
        let len: usize = if n - start < chunk_size {
            n - start
        } else {
            chunk_size
        };
        let ghost c = bounds@.len() as int;
        assert((c + 1) * chunk_size == c * chunk_size + chunk_size) by (nonlinear_arith);
        bounds.push((start, start + len));
        start = start + len;
    }
    proof {
        lemma_chunk_count_is(n as int, chunk_size as int, bounds@.len() as int);
    }
    bounds
}

} // verus!
