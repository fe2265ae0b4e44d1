use vstd::prelude::*;
use crate::particle::{Particle, within, BOUNDARY_LIMIT, UNITS_PER_ONE};
use crate::partition::Chunk;

verus! {

/// Half a length: the largest distance a particle travels along one axis in
/// one update.
pub const HALF_STEP: i64 = 500_000;

/// The point of `[0, 1)` that a 32-bit draw stands for, in coordinate units:
/// the draw's share of the full 32-bit range, rounded down.
pub open spec fn unit_fraction(draw: u32) -> int {
    (draw as int * UNITS_PER_ONE as int) / 0x1_0000_0000
}

/// The signed step that a draw stands for, in `[-HALF_STEP, HALF_STEP)`.
pub open spec fn step_offset(draw: u32) -> int {
    unit_fraction(draw) - HALF_STEP
}

/// Values below zero become zero, then values above `limit` become `limit`.
pub open spec fn clamp_coordinate(v: int, limit: int) -> int {
    let raised = if v < 0 { 0 } else { v };
    if raised > limit { limit } else { raised }
}

/// Where a particle ends up after one update with the given two draws.
pub open spec fn displaced(p: Particle, draw_x: u32, draw_y: u32, limit: i64) -> Particle {
    Particle {
        x: clamp_coordinate(p.x + step_offset(draw_x), limit as int) as i64,
        y: clamp_coordinate(p.y + step_offset(draw_y), limit as int) as i64,
    }
}

/// Where a fresh particle is placed by the given two draws: each coordinate
/// is the draw's point of `[0, 1)` stretched over ten lengths.
pub open spec fn placed_at(draw_x: u32, draw_y: u32) -> Particle {
    Particle { x: (unit_fraction(draw_x) * 10) as i64, y: (unit_fraction(draw_y) * 10) as i64 }
}

/// `p` is where some pair of draws places a fresh particle.
pub open spec fn placed_somewhere(p: Particle) -> bool {
    exists|draw_x: u32, draw_y: u32| p == #[trigger] placed_at(draw_x, draw_y)
}

/// `after` is what some pair of draws makes of `before`.
pub open spec fn moved_from(before: Particle, after: Particle, limit: i64) -> bool {
    exists|draw_x: u32, draw_y: u32| after == #[trigger] displaced(before, draw_x, draw_y, limit)
}

/// Draws 32 uniformly random bits with `rand::random`. The value depends on
/// the thread's generator, so nothing is claimed about it.
#[verifier::external_body]
pub(crate) fn random_draw() -> (draw: u32)
{
    rand::random::<u32>()
}

/// Scales a draw to a point of `[0, 1)`, in coordinate units.
pub fn fraction_of(draw: u32) -> (f: i64)
    ensures
        f == unit_fraction(draw),
        0 <= f < UNITS_PER_ONE,
{
    let scaled: u64 = (draw as u64) * 1_000_000u64;
    (scaled / 0x1_0000_0000u64) as i64
}

fn clamp(v: i128, limit: i64) -> (c: i64)
    ensures
        c == clamp_coordinate(v as int, limit as int),
{
    let raised: i128 = if v < 0 { 0 } else { v };
    if raised > limit as i128 { limit } else { raised as i64 }
}

impl Particle {
    /// A fresh particle at the place that the two draws stand for.
    pub fn placed(draw_x: u32, draw_y: u32) -> (p: Particle)
        ensures
            p == placed_at(draw_x, draw_y),
            0 <= p.x < BOUNDARY_LIMIT,
            0 <= p.y < BOUNDARY_LIMIT,
    {
        Particle { x: fraction_of(draw_x) * 10, y: fraction_of(draw_y) * 10 }
    }

    /// Moves the particle by the steps that the two draws stand for, then
    /// clamps each coordinate into `[0, limit]`.
    pub fn displace(&mut self, draw_x: u32, draw_y: u32, limit: i64)
        ensures
            *final(self) == displaced(*old(self), draw_x, draw_y, limit),
    {
        let step_x: i64 = fraction_of(draw_x) - HALF_STEP;
        let step_y: i64 = fraction_of(draw_y) - HALF_STEP;
        self.x = clamp(self.x as i128 + step_x as i128, limit);
        self.y = clamp(self.y as i128 + step_y as i128, limit);
    }
}

/// An update never leaves the arena, whatever was drawn, and never carries a
/// particle further than `HALF_STEP` along an axis unless the clamp pulls an
/// outlying particle back in.
pub proof fn lemma_displaced_within(p: Particle, draw_x: u32, draw_y: u32, limit: i64)
    requires
        limit >= 0,
    ensures
        within(displaced(p, draw_x, draw_y, limit), limit as int),
        within(p, limit as int) ==> {
            let q = displaced(p, draw_x, draw_y, limit);
            &&& -HALF_STEP <= q.x - p.x <= HALF_STEP
            &&& -HALF_STEP <= q.y - p.y <= HALF_STEP
        },
{
}

/// An update changes a coordinate exactly when its step is not zero and the
/// clamp does not undo it: a particle inside the arena stays where it was
/// along an axis only with a zero step, or pressed against the wall it sits
/// on.
pub proof fn lemma_displaced_moves(p: Particle, draw_x: u32, draw_y: u32, limit: i64)
    requires
        within(p, limit as int),
    ensures
        displaced(p, draw_x, draw_y, limit).x == p.x <==> step_offset(draw_x) == 0 || (p.x == 0
            && step_offset(draw_x) < 0) || (p.x == limit && step_offset(draw_x) > 0),
        displaced(p, draw_x, draw_y, limit).y == p.y <==> step_offset(draw_y) == 0 || (p.y == 0
            && step_offset(draw_y) < 0) || (p.y == limit && step_offset(draw_y) > 0),
{
}

/// Applies one motion update to every particle of a chunk: two fresh draws
/// per particle, a step of at most half a length along each axis, then a
/// clamp into `[0, enclosure_size]`. The draws are not known beforehand, so
/// each particle is known to end where some pair of draws takes it.
pub fn thread_main(list: &mut [Particle], enclosure_size: i64)
    ensures
        final(list)@.len() == old(list)@.len(),
        forall|i: int| 0 <= i < old(list)@.len() ==> moved_from(old(list)@[i], #[trigger] final(list)@[i], enclosure_size),
        enclosure_size >= 0 ==> forall|i: int| 0 <= i < final(list)@.len() ==> within(#[trigger] final(list)@[i], enclosure_size as int),
{
    let n: usize = list.len();
    let mut i: usize = 0;
    while i < n
        invariant
            i <= n,
            n == list@.len(),
            list@.len() == old(list)@.len(),
            forall|k: int| 0 <= k < i ==> moved_from(old(list)@[k], #[trigger] list@[k], enclosure_size),
            forall|k: int| i <= k < n ==> list@[k] == old(list)@[k],
        decreases n - i,
    {
        let draw_x: u32 = random_draw();
        let draw_y: u32 = random_draw();
        let mut p: Particle = list[i];
        p.displace(draw_x, draw_y, enclosure_size);
        list[i] = p;
        i += 1;
    }
    proof {
        if enclosure_size >= 0 {
            assert forall|k: int| 0 <= k < list@.len() implies within(#[trigger] list@[k], enclosure_size as int) by {
                lemma_moved_within(old(list)@[k], list@[k], enclosure_size);
            }
        }
    }
}

/// Applies one motion update to every particle of `list`, one chunk after
/// the other: `list` is what the chunks from number `k` on cover, and each
/// chunk is split off as a mutable view of its own before it is updated.
pub(crate) fn move_chunks(list: &mut [Particle], chunks: &Vec<Chunk>, k: usize, enclosure_size: i64)
    requires
        k <= chunks@.len(),
        k == chunks@.len() ==> old(list)@.len() == 0,
        k < chunks@.len() ==> chunks@[k as int].start + old(list)@.len() == chunks@.last().end,
        forall|c: int| k <= c < chunks@.len() ==> (#[trigger] chunks@[c]).start <= chunks@[c].end <= chunks@.last().end,
        forall|c: int| k <= c < chunks@.len() - 1 ==> (#[trigger] chunks@[c]).end == chunks@[c + 1].start,
    ensures
        final(list)@.len() == old(list)@.len(),
        forall|i: int| 0 <= i < old(list)@.len() ==> moved_from(old(list)@[i], #[trigger] final(list)@[i], enclosure_size),
    decreases chunks@.len() - k,
{
    if k < chunks.len() {
        let chunk: Chunk = chunks[k];
        let (head, tail) = list.split_at_mut(chunk.end - chunk.start);
        thread_main(head, enclosure_size);
        move_chunks(tail, chunks, k + 1, enclosure_size);
    }
}

/// Whatever was drawn, a particle that an update produced lies within the
/// enclosure.
pub proof fn lemma_moved_within(before: Particle, after: Particle, limit: i64)
    requires
        limit >= 0,
        moved_from(before, after, limit),
    ensures
        within(after, limit as int),
{
    let (dx, dy) = choose|dx: u32, dy: u32| after == #[trigger] displaced(before, dx, dy, limit);
    lemma_displaced_within(before, dx, dy, limit);
}

} // verus!
