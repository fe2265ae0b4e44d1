use vstd::prelude::*;
use vstd::arithmetic::div_mod::{lemma_fundamental_div_mod, lemma_mod_bound, lemma_div_pos_is_pos};

verus! {

/// A contiguous run of indices, `start` included and `end` excluded.
#[derive(Debug, Copy, Clone, PartialEq, Eq, Structural)]
pub struct Chunk {
    pub start: usize,
    pub end: usize,
}

/// `n / d`, rounded up.
pub open spec fn ceil_div(n: int, d: int) -> int
    recommends
        d > 0,
{
    n / d + if n % d == 0 { 0int } else { 1int }
}

/// Length of every chunk but possibly the last: the population shared out
/// among the workers, rounded up.
pub open spec fn chunk_size(n: int, workers: int) -> int
    recommends
        workers > 0,
{
    ceil_div(n, workers)
}

/// How many chunks a sequence of length `n` falls into.
pub open spec fn chunk_count(n: int, workers: int) -> int
    recommends
        workers > 0,
{
    if n <= 0 { 0 } else { ceil_div(n, chunk_size(n, workers)) }
}

/// The `k`-th chunk: it starts at `k` chunk sizes and ends one chunk size
/// later, or with the sequence.
pub open spec fn chunk_at(k: int, n: int, workers: int) -> Chunk {
    let size = chunk_size(n, workers);
    Chunk {
        start: (k * size) as usize,
        end: (if (k + 1) * size < n { (k + 1) * size } else { n }) as usize,
    }
}

/// The chunks of a sequence of length `n` for `workers` workers, in order.
pub open spec fn partition_of(n: usize, workers: usize) -> Seq<Chunk> {
    Seq::new(chunk_count(n as int, workers as int) as nat, |k: int| chunk_at(k, n as int, workers as int))
}

/// The rounded-up quotient is the least multiplier that reaches `n`.
pub proof fn lemma_ceil_div_bounds(n: int, d: int)
    requires
        n >= 0,
        d > 0,
    ensures
        ceil_div(n, d) >= 0,
        (ceil_div(n, d) - 1) * d < n <= ceil_div(n, d) * d || n == 0,
        n == 0 ==> ceil_div(n, d) == 0,
        n > 0 ==> ceil_div(n, d) >= 1,
{
    lemma_fundamental_div_mod(n, d);
    lemma_mod_bound(n, d);
    lemma_div_pos_is_pos(n, d);
    let q = n / d;
    let r = n % d;
    assert(n == d * q + r);
    assert((q + 1) * d == d * q + d && (q - 1) * d == d * q - d && q * d == d * q) by (nonlinear_arith);
    if n > 0 && q == 0 {
        assert(d * q == 0) by (nonlinear_arith)
            requires
                q == 0,
        ;
    }
}

/// Ordering of multiples of a positive number reflects back to the
/// multipliers.
proof fn lemma_multiple_order(a: int, b: int, d: int)
    requires
        d > 0,
        a * d < b * d,
    ensures
        a < b,
{
    assert(a < b) by (nonlinear_arith)
        requires
            d > 0,
            a * d < b * d,
    ;
}

/// Multiplying by a number that is not negative keeps the order.
proof fn lemma_multiple_monotone(a: int, b: int, d: int)
    requires
        d >= 0,
        a <= b,
    ensures
        a * d <= b * d,
{
    assert(a * d <= b * d) by (nonlinear_arith)
        requires
            d >= 0,
            a <= b,
    ;
}

/// The chunks tile the index range: they are at most `workers` many, none
/// is empty, the first starts at zero, each starts where the one before it
/// ended, the last ends at `n`, and the only chunk that holds an index `i`
/// is the one numbered `i / chunk_size`.
pub proof fn lemma_partition_covers(n: usize, workers: usize)
    requires
        workers >= 1,
    ensures
        partition_of(n, workers).len() <= workers,
        partition_of(n, workers).len() <= n,
        n == 0 <==> partition_of(n, workers).len() == 0,
        n > 0 ==> partition_of(n, workers)[0].start == 0 && partition_of(n, workers).last().end == n,
        forall|k: int|
            0 <= k < partition_of(n, workers).len() ==> {
                let c = #[trigger] partition_of(n, workers)[k];
                c.start < c.end <= n && c.end - c.start <= chunk_size(n as int, workers as int)
            },
        forall|k: int|
            0 <= k < partition_of(n, workers).len() - 1 ==> {
                let c = #[trigger] partition_of(n, workers)[k];
                c.end == partition_of(n, workers)[k + 1].start
                    && c.end - c.start == chunk_size(n as int, workers as int)
            },
        forall|i: int, k: int|
            0 <= i < n && 0 <= k < partition_of(n, workers).len() ==> {
                let c = #[trigger] partition_of(n, workers)[k];
                (c.start <= i < c.end) == (k == #[trigger] (i / chunk_size(n as int, workers as int)))
            },
        forall|i: int|
            0 <= i < n ==> 0 <= #[trigger] (i / chunk_size(n as int, workers as int))
                < partition_of(n, workers).len(),
{
    let ni = n as int;
    let w = workers as int;
    let size = chunk_size(ni, w);
    let count = chunk_count(ni, w);
    let p = partition_of(n, workers);
    lemma_ceil_div_bounds(ni, w);
    if n > 0 {
        lemma_ceil_div_bounds(ni, size);
        // size * workers reaches n, so count cannot exceed workers.
        assert((count - 1) * size < w * size);
        lemma_multiple_order(count - 1, w, size);
        // size >= 1, so count chunks need at least count items.
        assert(size <= ni) by {
            if size > ni {
                lemma_multiple_monotone(1, w, size - 1);
                assert((size - 1) * w == w * (size - 1)) by (nonlinear_arith);
                assert(1 * (size - 1) == size - 1) by (nonlinear_arith);
            }
        }
        assert(count <= ni) by {
            lemma_multiple_monotone(1, size, count - 1);
            assert(1 * (count - 1) == count - 1 && size * (count - 1) == (count - 1) * size) by (nonlinear_arith);
        }
        assert(0 * size == 0) by (nonlinear_arith);
        assert((count - 1 + 1) * size == count * size);
        assert forall|k: int| 0 <= k < p.len() implies {
            let c = #[trigger] p[k];
            &&& c.start == k * size
            &&& c.end == (if (k + 1) * size < ni { (k + 1) * size } else { ni })
            &&& c.start < c.end <= n
            &&& c.end - c.start <= size
            &&& (k < p.len() - 1 ==> c.end == (k + 1) * size && c.end - c.start == size)
        } by {
            lemma_multiple_monotone(0, k, size);
            lemma_multiple_monotone(k, count - 1, size);
            assert((k + 1) * size == k * size + size) by (nonlinear_arith);
            if k < count - 1 {
                lemma_multiple_monotone(k + 1, count - 1, size);
            }
        }
        assert forall|i: int, k: int| 0 <= i < n && 0 <= k < p.len() implies {
            let c = #[trigger] p[k];
            (c.start <= i < c.end) == (k == #[trigger] (i / size))
        } by {
            lemma_fundamental_div_mod(i, size);
            lemma_mod_bound(i, size);
            let q = i / size;
            assert(i == size * q + i % size);
            assert(size * q == q * size && (q + 1) * size == q * size + size && (k + 1) * size == k * size + size) by (nonlinear_arith);
            if k < q {
                lemma_multiple_monotone(k + 1, q, size);
            }
            if k > q {
                lemma_multiple_monotone(q + 1, k, size);
            }
        }
        assert forall|i: int| 0 <= i < n implies 0 <= #[trigger] (i / size) < p.len() by {
            lemma_fundamental_div_mod(i, size);
            lemma_mod_bound(i, size);
            lemma_div_pos_is_pos(i, size);
            let q = i / size;
            assert(size * q == q * size) by (nonlinear_arith);
            if q >= count {
                lemma_multiple_monotone(count, q, size);
            }
        }
    }
}

/// Splits the index range `0..n` into contiguous chunks for `worker_count`
/// workers: every chunk has `ceil(n / worker_count)` indices, except that
/// the last one may have fewer. An empty range has no chunks.
pub fn partition(n: usize, worker_count: usize) -> (chunks: Vec<Chunk>)
    requires
        worker_count >= 1,
    ensures
        chunks@ == partition_of(n, worker_count),
{
    proof {
        // A remainder is left only where the quotient is below `n`.
        lemma_fundamental_div_mod(n as int, worker_count as int);
        lemma_mod_bound(n as int, worker_count as int);
        lemma_div_pos_is_pos(n as int, worker_count as int);
        lemma_multiple_monotone(1, worker_count as int, n as int / worker_count as int);
        assert(worker_count as int * (n as int / worker_count as int)
            == (n as int / worker_count as int) * worker_count as int) by (nonlinear_arith);
    }
    let size: usize = n / worker_count + if n % worker_count == 0 { 0 } else { 1 };
    let mut chunks: Vec<Chunk> = Vec::new();
    let mut start: usize = 0;
    let ghost count = chunk_count(n as int, worker_count as int);
    proof {
        lemma_ceil_div_bounds(n as int, worker_count as int);
        if n > 0 {
            lemma_ceil_div_bounds(n as int, size as int);
        }
        assert(0 * size == 0) by (nonlinear_arith);
    }
    while start < n
        invariant
            size == chunk_size(n as int, worker_count as int),
            count == chunk_count(n as int, worker_count as int),
            n > 0 ==> size >= 1 && (count - 1) * size < n <= count * size,
            n == 0 ==> count == 0,
            0 <= chunks@.len() <= count,
            start == (if chunks@.len() * size < n { chunks@.len() * size } else { n as int }),
            forall|k: int| 0 <= k < chunks@.len() ==> chunks@[k] == chunk_at(k, n as int, worker_count as int),
        decreases n - start,
    {
        let ghost k = chunks@.len() as int;
        let end: usize = if n - start <= size { n } else { start + size };
        proof {
            assert((k + 1) * size == k * size + size) by (nonlinear_arith);
            lemma_multiple_order(k, count, size as int);
        }
        chunks.push(Chunk { start, end });
        start = end;
    }
    proof {
        let k = chunks@.len() as int;
        if n > 0 && k < count {
            lemma_multiple_monotone(k, count - 1, size as int);
        }
        assert(chunks@ =~= partition_of(n, worker_count));
    }
    chunks
}

} // verus!
