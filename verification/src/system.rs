use vstd::prelude::*;
use crate::particle::{Particle, within, PARTICLES_TOTAL, BOUNDARY_LIMIT};
use crate::partition::{Chunk, partition, partition_of, lemma_partition_covers};
use crate::motion::{random_draw, moved_from, placed_somewhere, thread_main, move_chunks, lemma_moved_within};
use crate::collision::{scan_chunks, chunk_tallies, collision_count};

verus! {

/// Workers among which the motion phase is shared out.
pub const NUM_THREADS: usize = 4;

/// Workers among which the collision phase is shared out. With a single
/// worker the scan sees every pair of the population.
pub const NUM_COLLISION_THREADS: usize = 1;

/// The whole population, in a fixed order.
pub struct ParticleSystem {
    pub particles: Vec<Particle>,
}

impl View for ParticleSystem {
    type V = Seq<Particle>;

    open spec fn view(&self) -> Seq<Particle> {
        self.particles@
    }
}

impl ParticleSystem {
    /// The population is complete and every particle lies in the arena.
    pub open spec fn wf(&self) -> bool {
        &&& self@.len() == PARTICLES_TOTAL
        &&& forall|i: int| 0 <= i < self@.len() ==> within(#[trigger] self@[i], BOUNDARY_LIMIT as int)
    }

    /// `self` came out of one motion update of `before`: the same number of
    /// particles, each moved by some pair of draws and inside the arena.
    pub open spec fn updated_from(&self, before: Seq<Particle>) -> bool {
        &&& self@.len() == before.len()
        &&& forall|i: int| 0 <= i < before.len() ==> moved_from(before[i], #[trigger] self@[i], BOUNDARY_LIMIT)
        &&& forall|i: int| 0 <= i < self@.len() ==> within(#[trigger] self@[i], BOUNDARY_LIMIT as int)
    }

    /// A population of `PARTICLES_TOTAL` particles, each placed by two fresh
    /// draws somewhere in the arena.
    pub fn new() -> (system: ParticleSystem)
        ensures
            system.wf(),
            forall|i: int| 0 <= i < system@.len() ==> placed_somewhere(#[trigger] system@[i]),
            forall|i: int| 0 <= i < system@.len() ==> (#[trigger] system@[i]).x < BOUNDARY_LIMIT && system@[i].y < BOUNDARY_LIMIT,
    {
        let mut particles: Vec<Particle> = Vec::new();
        let mut i: usize = 0;
        while i < PARTICLES_TOTAL
            invariant
                i <= PARTICLES_TOTAL,
                particles@.len() == i,
                forall|k: int| 0 <= k < i ==> placed_somewhere(#[trigger] particles@[k]),
                forall|k: int| 0 <= k < i ==> 0 <= (#[trigger] particles@[k]).x < BOUNDARY_LIMIT && 0 <= particles@[k].y < BOUNDARY_LIMIT,
            decreases PARTICLES_TOTAL - i,
        {
            let draw_x: u32 = random_draw();
            let draw_y: u32 = random_draw();
            particles.push(Particle::placed(draw_x, draw_y));
            i += 1;
        }
        ParticleSystem { particles }
    }

    /// One motion update of every particle, in index order.
    pub fn move_particles(&mut self)
        ensures
            final(self).updated_from(old(self)@),
            old(self).wf() ==> final(self).wf(),
    {
        thread_main(self.particles.as_mut_slice(), BOUNDARY_LIMIT);
    }

    /// One motion update of every particle, chunk by chunk over the
    /// partition for `NUM_THREADS` workers. The chunks are disjoint mutable
    /// views that cover the population, so every particle is updated exactly
    /// once. Here the chunks are taken in order; a caller who owns a pool of
    /// workers may hand each view to `thread_main` on a worker of its own.
    pub fn move_particles_threaded(&mut self)
        ensures
            final(self).updated_from(old(self)@),
            old(self).wf() ==> final(self).wf(),
    {
        let n: usize = self.particles.len();
        let chunks: Vec<Chunk> = partition(n, NUM_THREADS);
        proof {
            lemma_partition_covers(n, NUM_THREADS);
        }
        move_chunks(self.particles.as_mut_slice(), &chunks, 0, BOUNDARY_LIMIT);
        proof {
            assert forall|i: int| 0 <= i < self@.len() implies within(#[trigger] self@[i], BOUNDARY_LIMIT as int) by {
                lemma_moved_within(old(self)@[i], self@[i], BOUNDARY_LIMIT);
            }
        }
    }

    /// Scans the population for colliding pairs, chunk by chunk over the
    /// partition for `NUM_COLLISION_THREADS` workers, and returns one tally
    /// per chunk. With the single worker configured here the one tally is
    /// the number of colliding pairs in the whole population.
    pub fn detect_collisions_threaded(&self) -> (tallies: Vec<u128>)
        ensures
            tallies@.map_values(|t: u128| t as nat) == chunk_tallies(
                self@,
                partition_of(self@.len() as usize, NUM_COLLISION_THREADS),
            ),
            self@.len() == 0 ==> tallies@.len() == 0,
            self@.len() > 0 ==> tallies@.len() == 1 && tallies@[0] == collision_count(self@),
    {
        proof {
            lemma_partition_covers(self@.len() as usize, NUM_COLLISION_THREADS);
        }
        scan_chunks(self.particles.as_slice(), NUM_COLLISION_THREADS)
    }

    /// One tick: a motion update of every particle, then a collision scan
    /// of the positions that the update left.
    pub fn tick(&mut self) -> (tallies: Vec<u128>)
        ensures
            final(self).updated_from(old(self)@),
            old(self).wf() ==> final(self).wf(),
            final(self)@.len() == 0 ==> tallies@.len() == 0,
            final(self)@.len() > 0 ==> tallies@.len() == 1 && tallies@[0] == collision_count(final(self)@),
    {
        self.move_particles_threaded();
        self.detect_collisions_threaded()
    }
}

} // verus!
