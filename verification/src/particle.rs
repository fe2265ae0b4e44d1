use vstd::prelude::*;

verus! {

/// Fixed-point scale: this many coordinate units make up a length of one.
pub const UNITS_PER_ONE: i64 = 1_000_000;

/// Size of the population.
pub const PARTICLES_TOTAL: usize = 100;

/// Side of the arena (ten lengths); coordinates live in `[0, BOUNDARY_LIMIT]`.
pub const BOUNDARY_LIMIT: i64 = 10_000_000;

/// Two particles closer than this (a tenth of a length) collide.
pub const COLLISION_DISTANCE: i64 = 100_000;

/// A point in the plane. It has a position and nothing else.
#[derive(Debug, Copy, Clone, PartialEq, Eq, Structural)]
pub struct Particle {
    pub x: i64,
    pub y: i64,
}

/// Square of the Euclidean distance between two particles.
pub open spec fn distance_squared(a: Particle, b: Particle) -> int {
    (a.x - b.x) * (a.x - b.x) + (a.y - b.y) * (a.y - b.y)
}

/// Two particles collide when their distance is strictly below
/// `COLLISION_DISTANCE`.
pub open spec fn collides(a: Particle, b: Particle) -> bool {
    distance_squared(a, b) < COLLISION_DISTANCE * COLLISION_DISTANCE
}

/// A particle lies in the closed square `[0, limit] x [0, limit]`.
pub open spec fn within(p: Particle, limit: int) -> bool {
    0 <= p.x <= limit && 0 <= p.y <= limit
}

impl Particle {
    /// A particle at the given position. Any position is accepted.
    pub fn new(x: i64, y: i64) -> (p: Particle)
        ensures
            p.x == x,
            p.y == y,
    {
        Particle { x, y }
    }

    /// Whether `other` is strictly closer than `COLLISION_DISTANCE`.
    pub fn collide(&self, other: &Particle) -> (hit: bool)
        ensures
            hit == collides(*self, *other),
    {
        let dx: i128 = self.x as i128 - other.x as i128;
        let dy: i128 = self.y as i128 - other.y as i128;
        let d: i128 = COLLISION_DISTANCE as i128;
        if dx <= -d || dx >= d || dy <= -d || dy >= d {
            // One axis alone already spans the threshold.
            assert(dx * dx + dy * dy >= d * d) by (nonlinear_arith)
                requires
                    d >= 0,
                    dx <= -d || dx >= d || dy <= -d || dy >= d,
            ;
            false
        } else {
            assert(0 <= dx * dx <= d * d && 0 <= dy * dy <= d * d) by (nonlinear_arith)
                requires
                    -d < dx < d,
                    -d < dy < d,
            ;
            assert(d * d == 10_000_000_000) by (nonlinear_arith)
                requires
                    d == 100_000,
            ;
            dx * dx + dy * dy < d * d
        }
    }
}

/// Collision is symmetric: it does not matter which particle asks.
pub proof fn lemma_collision_symmetric(a: Particle, b: Particle)
    ensures
        collides(a, b) == collides(b, a),
{
    assert(distance_squared(a, b) == distance_squared(b, a)) by (nonlinear_arith)
        requires
            distance_squared(a, b) == (a.x - b.x) * (a.x - b.x) + (a.y - b.y) * (a.y - b.y),
            distance_squared(b, a) == (b.x - a.x) * (b.x - a.x) + (b.y - a.y) * (b.y - a.y),
    ;
}

/// The threshold is strict: at a distance of exactly `COLLISION_DISTANCE`
/// two particles do not collide, and one coordinate unit closer they do.
pub proof fn lemma_threshold_is_strict(a: Particle, b: Particle)
    ensures
        distance_squared(a, b) == COLLISION_DISTANCE * COLLISION_DISTANCE ==> !collides(a, b),
        a.y == b.y && (b.x - a.x == COLLISION_DISTANCE || a.x - b.x == COLLISION_DISTANCE)
            ==> !collides(a, b),
        a.x == b.x && (b.y - a.y == COLLISION_DISTANCE || a.y - b.y == COLLISION_DISTANCE)
            ==> !collides(a, b),
        a.y == b.y && (b.x - a.x == COLLISION_DISTANCE - 1 || a.x - b.x == COLLISION_DISTANCE - 1)
            ==> collides(a, b),
        a.x == b.x && (b.y - a.y == COLLISION_DISTANCE - 1 || a.y - b.y == COLLISION_DISTANCE - 1)
            ==> collides(a, b),
{
    let dx = a.x - b.x;
    let dy = a.y - b.y;
    assert(distance_squared(a, b) == dx * dx + dy * dy);
    assert(dx == 0 ==> dx * dx == 0) by (nonlinear_arith);
    assert(dy == 0 ==> dy * dy == 0) by (nonlinear_arith);
    assert((dx == 100_000 || dx == -100_000) ==> dx * dx == 10_000_000_000) by (nonlinear_arith);
    assert((dy == 100_000 || dy == -100_000) ==> dy * dy == 10_000_000_000) by (nonlinear_arith);
    assert((dx == 99_999 || dx == -99_999) ==> dx * dx == 9_999_800_001) by (nonlinear_arith);
    assert((dy == 99_999 || dy == -99_999) ==> dy * dy == 9_999_800_001) by (nonlinear_arith);
    assert(COLLISION_DISTANCE * COLLISION_DISTANCE == 10_000_000_000) by (nonlinear_arith);
}

} // verus!
