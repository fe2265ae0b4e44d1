use vstd::prelude::*;
use vstd::slice::slice_subrange;
use vstd::set_lib::{lemma_set_disjoint_lens, lemma_map_size, lemma_len_subset};
use vstd::relations::injective_on;
use crate::particle::{Particle, collides};
use crate::partition::{Chunk, chunk_size, partition, partition_of, lemma_partition_covers};

verus! {

/// The colliding pairs of `s`: every pair of positions `(i, j)` with `i`
/// before `j` whose particles collide.
pub open spec fn colliding_pairs(s: Seq<Particle>) -> Set<(int, int)> {
    Set::new(|p: (int, int)| 0 <= p.0 < p.1 < s.len() && collides(s[p.0], s[p.1]))
}

/// Number of unordered pairs of distinct positions in `s` whose particles
/// collide.
pub open spec fn collision_count(s: Seq<Particle>) -> nat {
    colliding_pairs(s).len()
}

/// What a scan split into chunks reports: one tally per chunk, each counting
/// only the pairs that lie inside its chunk.
pub open spec fn chunk_tallies(s: Seq<Particle>, chunks: Seq<Chunk>) -> Seq<nat> {
    Seq::new(chunks.len(), |k: int| collision_count(s.subrange(chunks[k].start as int, chunks[k].end as int)))
}

/// The colliding pairs whose first position is `i` and whose second is
/// below `j_end`.
spec fn pairs_in_row(s: Seq<Particle>, i: int, j_end: int) -> Set<(int, int)> {
    Set::new(|p: (int, int)| p.0 == i && 0 <= i < p.1 < j_end && p.1 < s.len() && collides(s[p.0], s[p.1]))
}

/// The colliding pairs whose first position is below `i_end`.
spec fn pairs_in_rows(s: Seq<Particle>, i_end: int) -> Set<(int, int)> {
    Set::new(|p: (int, int)| 0 <= p.0 < i_end && p.0 < p.1 < s.len() && collides(s[p.0], s[p.1]))
}

/// Looking one position further along a row adds that position's pair if
/// it collides, and nothing else.
proof fn lemma_row_step(s: Seq<Particle>, i: int, j: int)
    requires
        0 <= i < j < s.len(),
        pairs_in_row(s, i, j).finite(),
    ensures
        pairs_in_row(s, i, j + 1).finite(),
        pairs_in_row(s, i, j + 1).len() == pairs_in_row(s, i, j).len() + (if collides(s[i], s[j]) {
            1nat
        } else {
            0nat
        }),
{
    if collides(s[i], s[j]) {
        assert(pairs_in_row(s, i, j + 1) =~= pairs_in_row(s, i, j).insert((i, j)));
    } else {
        assert(pairs_in_row(s, i, j + 1) =~= pairs_in_row(s, i, j));
    }
}

/// A finished row adds its pairs to those of the rows before it.
proof fn lemma_rows_step(s: Seq<Particle>, i: int)
    requires
        0 <= i < s.len(),
        pairs_in_rows(s, i).finite(),
        pairs_in_row(s, i, s.len() as int).finite(),
    ensures
        pairs_in_rows(s, i + 1).finite(),
        pairs_in_rows(s, i + 1).len() == pairs_in_rows(s, i).len() + pairs_in_row(s, i, s.len() as int).len(),
{
    let before = pairs_in_rows(s, i);
    let row = pairs_in_row(s, i, s.len() as int);
    assert(pairs_in_rows(s, i + 1) =~= before + row);
    assert(before.disjoint(row));
    lemma_set_disjoint_lens(before, row);
}

/// A sequence has finitely many colliding pairs.
pub proof fn lemma_colliding_pairs_finite(s: Seq<Particle>)
    ensures
        colliding_pairs(s).finite(),
{
    lemma_rows_finite(s, s.len() as int);
    assert(colliding_pairs(s) =~= pairs_in_rows(s, s.len() as int));
}

proof fn lemma_row_finite(s: Seq<Particle>, i: int, j_end: int)
    requires
        0 <= i < s.len(),
        i < j_end <= s.len(),
    ensures
        pairs_in_row(s, i, j_end).finite(),
    decreases j_end,
{
    if j_end == i + 1 {
        assert(pairs_in_row(s, i, j_end) =~= Set::empty());
    } else {
        lemma_row_finite(s, i, j_end - 1);
        lemma_row_step(s, i, j_end - 1);
    }
}

proof fn lemma_rows_finite(s: Seq<Particle>, i_end: int)
    requires
        0 <= i_end <= s.len(),
    ensures
        pairs_in_rows(s, i_end).finite(),
    decreases i_end,
{
    if i_end == 0 {
        assert(pairs_in_rows(s, i_end) =~= Set::empty());
    } else {
        lemma_rows_finite(s, i_end - 1);
        lemma_row_finite(s, i_end - 1, s.len() as int);
        lemma_rows_step(s, i_end - 1);
    }
}

/// The colliding pairs of `s` with both positions in `start..end`.
pub open spec fn pairs_inside(s: Seq<Particle>, start: int, end: int) -> Set<(int, int)> {
    Set::new(|p: (int, int)| start <= p.0 && p.1 < end && colliding_pairs(s).contains(p))
}

/// The colliding pairs that a scan in chunks of `size` positions sees: both
/// positions fall into the same chunk.
pub open spec fn pairs_seen(s: Seq<Particle>, size: int) -> Set<(int, int)> {
    Set::new(|p: (int, int)| colliding_pairs(s).contains(p) && p.0 / size == p.1 / size)
}

/// The colliding pairs that a scan in chunks of `size` positions misses:
/// the two positions fall into different chunks.
pub open spec fn pairs_missed(s: Seq<Particle>, size: int) -> Set<(int, int)> {
    Set::new(|p: (int, int)| colliding_pairs(s).contains(p) && p.0 / size != p.1 / size)
}

/// Sum of the tallies.
pub open spec fn tally_sum(tallies: Seq<nat>) -> nat
    decreases tallies.len(),
{
    if tallies.len() == 0 {
        0
    } else {
        tally_sum(tallies.drop_last()) + tallies.last()
    }
}

/// The tally of a chunk counts exactly the colliding pairs of the whole
/// sequence that lie inside the chunk, so it never exceeds the count of the
/// whole.
pub proof fn lemma_chunk_tally(s: Seq<Particle>, start: int, end: int)
    requires
        0 <= start <= end <= s.len(),
    ensures
        pairs_inside(s, start, end).finite(),
        collision_count(s.subrange(start, end)) == pairs_inside(s, start, end).len(),
        collision_count(s.subrange(start, end)) <= collision_count(s),
{
    let sub = s.subrange(start, end);
    let shift = |p: (int, int)| (p.0 + start, p.1 + start);
    lemma_colliding_pairs_finite(sub);
    lemma_colliding_pairs_finite(s);
    assert forall|q: (int, int)| pairs_inside(s, start, end).contains(q) implies colliding_pairs(sub).map(
        shift,
    ).contains(q) by {
        let p = (q.0 - start, q.1 - start);
        assert(colliding_pairs(sub).contains(p) && shift(p) == q);
    }
    assert(colliding_pairs(sub).map(shift) =~= pairs_inside(s, start, end));
    assert(injective_on(shift, colliding_pairs(sub)));
    lemma_map_size(colliding_pairs(sub), pairs_inside(s, start, end), shift);
    lemma_len_subset(pairs_inside(s, start, end), colliding_pairs(s));
}

/// The pairs seen by the first `k` chunks.
spec fn pairs_seen_below(s: Seq<Particle>, size: int, k: int) -> Set<(int, int)> {
    Set::new(|p: (int, int)| pairs_seen(s, size).contains(p) && p.0 / size < k)
}

proof fn lemma_tallies_below(s: Seq<Particle>, workers: usize, k: int)
    requires
        workers >= 1,
        s.len() <= usize::MAX,
        0 <= k <= partition_of(s.len() as usize, workers).len(),
    ensures
        pairs_seen_below(s, chunk_size(s.len() as int, workers as int), k).finite(),
        tally_sum(chunk_tallies(s, partition_of(s.len() as usize, workers)).take(k))
            == pairs_seen_below(s, chunk_size(s.len() as int, workers as int), k).len(),
    decreases k,
{
    let n = s.len() as usize;
    let size = chunk_size(n as int, workers as int);
    let chunks = partition_of(n, workers);
    let tallies = chunk_tallies(s, chunks);
    if k == 0 {
        assert(pairs_seen_below(s, size, 0) =~= Set::empty()) by {
            assert forall|p: (int, int)| !pairs_seen_below(s, size, 0).contains(p) by {
                if colliding_pairs(s).contains(p) {
                    lemma_partition_covers(n, workers);
                    assert(0 <= p.0 / size);
                }
            }
        }
        assert(tallies.take(0) =~= Seq::empty());
    } else {
        lemma_tallies_below(s, workers, k - 1);
        lemma_partition_covers(n, workers);
        let c = chunks[k - 1];
        lemma_chunk_tally(s, c.start as int, c.end as int);
        let before = pairs_seen_below(s, size, k - 1);
        let inside = pairs_inside(s, c.start as int, c.end as int);
        assert forall|p: (int, int)| pairs_seen_below(s, size, k).contains(p) == (before.contains(p)
            || inside.contains(p)) by {
            if colliding_pairs(s).contains(p) {
                assert((c.start <= p.0 < c.end) == (k - 1 == p.0 / size));
                assert((c.start <= p.1 < c.end) == (k - 1 == p.1 / size));
            }
        }
        assert(pairs_seen_below(s, size, k) =~= before + inside);
        assert(before.disjoint(inside)) by {
            assert forall|p: (int, int)| !(before.contains(p) && inside.contains(p)) by {
                if colliding_pairs(s).contains(p) {
                    assert((c.start <= p.0 < c.end) == (k - 1 == p.0 / size));
                }
            }
        }
        lemma_set_disjoint_lens(before, inside);
        assert(tallies.take(k).drop_last() =~= tallies.take(k - 1));
        assert(tallies.take(k).last() == tallies[k - 1]);
    }
}

/// What a scan in chunks reports, and what it misses. The tallies of the
/// chunks add up to the number of colliding pairs whose two particles share
/// a chunk; together with the pairs that straddle two chunks, which no
/// tally counts, that is every colliding pair of the population.
pub proof fn lemma_scan_blind_spot(s: Seq<Particle>, workers: usize)
    requires
        workers >= 1,
        s.len() <= usize::MAX,
    ensures
        tally_sum(chunk_tallies(s, partition_of(s.len() as usize, workers))) == pairs_seen(
            s,
            chunk_size(s.len() as int, workers as int),
        ).len(),
        tally_sum(chunk_tallies(s, partition_of(s.len() as usize, workers))) + pairs_missed(
            s,
            chunk_size(s.len() as int, workers as int),
        ).len() == collision_count(s),
        workers == 1 ==> pairs_missed(s, chunk_size(s.len() as int, workers as int)).len() == 0,
{
    let n = s.len() as usize;
    let size = chunk_size(n as int, workers as int);
    let chunks = partition_of(n, workers);
    let tallies = chunk_tallies(s, chunks);
    let seen = pairs_seen(s, size);
    let missed = pairs_missed(s, size);
    lemma_partition_covers(n, workers);
    lemma_tallies_below(s, workers, chunks.len() as int);
    assert(tallies.take(chunks.len() as int) =~= tallies);
    assert(pairs_seen_below(s, size, chunks.len() as int) =~= seen) by {
        assert forall|p: (int, int)| seen.contains(p) implies p.0 / size < chunks.len() by {
            assert(0 <= p.0 / size < chunks.len());
        }
    }
    lemma_colliding_pairs_finite(s);
    lemma_len_subset(missed, colliding_pairs(s));
    assert(colliding_pairs(s) =~= seen + missed);
    assert(seen.disjoint(missed));
    lemma_set_disjoint_lens(seen, missed);
    if workers == 1 {
        assert(missed =~= Set::empty()) by {
            assert forall|p: (int, int)| !missed.contains(p) by {
                if colliding_pairs(s).contains(p) {
                    assert(0 <= p.0 / size < chunks.len());
                    assert(0 <= p.1 / size < chunks.len());
                }
            }
        }
    }
}

/// Counts the colliding pairs among the given particles by comparing every
/// particle with each one after it. Pairs with a member outside the slice
/// are not looked at.
pub fn thread_collide_main(particles: &[Particle]) -> (collision_count: u128)
    ensures
        collision_count == self::collision_count(particles@),
{
    let n: usize = particles.len();
    let mut total: u128 = 0;
    let mut i: usize = 0;
    proof {
        assert(0 * n == 0) by (nonlinear_arith);
        assert(pairs_in_rows(particles@, 0) =~= Set::empty());
    }
    while i < n
        invariant
            i <= n,
            n == particles@.len(),
            pairs_in_rows(particles@, i as int).finite(),
            total == pairs_in_rows(particles@, i as int).len(),
            total <= i * n,
        decreases n - i,
    {
        let mut row: u64 = 0;
        let mut j: usize = i + 1;
        proof {
            assert(pairs_in_row(particles@, i as int, j as int) =~= Set::empty());
        }
        while j < n
            invariant
                i < n,
                i + 1 <= j <= n,
                n == particles@.len(),
                pairs_in_row(particles@, i as int, j as int).finite(),
                row == pairs_in_row(particles@, i as int, j as int).len(),
                row <= j - i - 1,
            decreases n - j,
        {
            proof {
                lemma_row_step(particles@, i as int, j as int);
            }
            if particles[i].collide(&particles[j]) {
                row += 1;
            }
            j += 1;
        }
        proof {
            lemma_rows_step(particles@, i as int);
            assert((i + 1) * n == i * n + n && (i + 1) * n <= n * n) by (nonlinear_arith)
                requires
                    i < n,
            ;
            assert(n * n <= 0xFFFF_FFFF_FFFF_FFFF * 0xFFFF_FFFF_FFFF_FFFF) by (nonlinear_arith)
                requires
                    0 <= n <= 0xFFFF_FFFF_FFFF_FFFF,
            ;
        }
        total += row as u128;
        i += 1;
    }
    proof {
        assert(colliding_pairs(particles@) =~= pairs_in_rows(particles@, n as int));
    }
    total
}

/// Scans each chunk of the partition for `worker_count` workers on its own
/// and returns the tallies in chunk order. A colliding pair whose members
/// fall into different chunks is counted by none of them.
pub fn scan_chunks(particles: &[Particle], worker_count: usize) -> (tallies: Vec<u128>)
    requires
        worker_count >= 1,
    ensures
        tallies@.len() == partition_of(particles@.len() as usize, worker_count).len(),
        tallies@.map_values(|t: u128| t as nat) == chunk_tallies(
            particles@,
            partition_of(particles@.len() as usize, worker_count),
        ),
        worker_count == 1 && particles@.len() > 0 ==> tallies@.len() == 1 && tallies@[0]
            == collision_count(particles@),
{
    let n: usize = particles.len();
    let chunks: Vec<Chunk> = partition(n, worker_count);
    let mut tallies: Vec<u128> = Vec::new();
    let mut k: usize = 0;
    proof {
        lemma_partition_covers(n, worker_count);
    }
    while k < chunks.len()
        invariant
            k <= chunks@.len(),
            n == particles@.len(),
            chunks@ == partition_of(n, worker_count),
            forall|c: int| 0 <= c < chunks@.len() ==> (#[trigger] chunks@[c]).start < chunks@[c].end <= n,
            tallies@.len() == k,
            forall|c: int| 0 <= c < k ==> #[trigger] tallies@[c] == collision_count(
                particles@.subrange(chunks@[c].start as int, chunks@[c].end as int),
            ),
        decreases chunks@.len() - k,
    {
        let chunk: Chunk = chunks[k];
        let tally: u128 = thread_collide_main(slice_subrange(particles, chunk.start, chunk.end));
        tallies.push(tally);
        k += 1;
    }
    proof {
        assert(tallies@.map_values(|t: u128| t as nat) =~= chunk_tallies(particles@, chunks@));
        if worker_count == 1 && n > 0 {
            assert(chunks@.len() == 1);
            assert(chunks@[0].start == 0 && chunks@.last().end == n);
            assert(particles@.subrange(0, n as int) =~= particles@);
        }
    }
    tallies
}

} // verus!
