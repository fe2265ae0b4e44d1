use colliding_particles::motion::{fraction_of, HALF_STEP};
use colliding_particles::particle::{
    Particle, BOUNDARY_LIMIT, COLLISION_DISTANCE, PARTICLES_TOTAL, UNITS_PER_ONE,
};
use colliding_particles::system::ParticleSystem;
use colliding_particles::thread_main;

#[test]
fn test_particle_initialization() {
    let system = ParticleSystem::new();
    assert_eq!(system.particles.len(), PARTICLES_TOTAL);
    for p in &system.particles {
        assert!(p.x >= 0 && p.x <= BOUNDARY_LIMIT);
        assert!(p.y >= 0 && p.y <= BOUNDARY_LIMIT);
    }
}

#[test]
fn test_particle_movement() {
    let mut system = ParticleSystem::new();
    let initial_positions: Vec<(i64, i64)> =
        system.particles.iter().map(|p| (p.x, p.y)).collect();

    system.move_particles();

    let new_positions: Vec<(i64, i64)> =
        system.particles.iter().map(|p| (p.x, p.y)).collect();

    assert_ne!(initial_positions, new_positions, "ذرات باید حرکت کنند");
}

#[test]
fn constants_are_exact_in_fixed_point() {
    assert_eq!(UNITS_PER_ONE, 1_000_000);
    assert_eq!(BOUNDARY_LIMIT, 10 * UNITS_PER_ONE);
    assert_eq!(COLLISION_DISTANCE * 10, UNITS_PER_ONE);
    assert_eq!(HALF_STEP * 2, UNITS_PER_ONE);
    assert_eq!(PARTICLES_TOTAL, 100);
}

#[test]
fn new_keeps_the_coordinates_given() {
    let p = Particle::new(-7, 123_456_789);
    assert_eq!(p.x, -7);
    assert_eq!(p.y, 123_456_789);
    assert_eq!(p, Particle { x: -7, y: 123_456_789 });
}

#[test]
fn initial_positions_are_below_the_limit() {
    for _ in 0..20 {
        let system = ParticleSystem::new();
        assert_eq!(system.particles.len(), 100);
        for p in &system.particles {
            assert!(0 <= p.x && p.x < BOUNDARY_LIMIT);
            assert!(0 <= p.y && p.y < BOUNDARY_LIMIT);
        }
    }
}

#[test]
fn placed_scales_draws_over_the_arena() {
    assert_eq!(Particle::placed(0, 0), Particle::new(0, 0));
    assert_eq!(Particle::placed(0x8000_0000, 0x4000_0000), Particle::new(5_000_000, 2_500_000));
    assert_eq!(Particle::placed(u32::MAX, 1), Particle::new(9_999_990, 0));
}

#[test]
fn fraction_of_exact_values() {
    assert_eq!(fraction_of(0), 0);
    assert_eq!(fraction_of(0x8000_0000), 500_000);
    assert_eq!(fraction_of(0x4000_0000), 250_000);
    assert_eq!(fraction_of(u32::MAX), 999_999);
    assert_eq!(fraction_of(4_295), 1);
    assert_eq!(fraction_of(4_294), 0);
}

#[test]
fn displace_steps_by_the_draws() {
    let mut p = Particle::new(5_000_000, 5_000_000);
    p.displace(0, u32::MAX, BOUNDARY_LIMIT);
    assert_eq!(p, Particle::new(4_500_000, 5_499_999));

    let mut q = Particle::new(5_000_000, 5_000_000);
    q.displace(0x8000_0000, 0xC000_0000, BOUNDARY_LIMIT);
    assert_eq!(q, Particle::new(5_000_000, 5_250_000));
}

#[test]
fn displace_clamps_at_both_walls() {
    let mut p = Particle::new(100_000, 9_900_000);
    p.displace(0, u32::MAX, BOUNDARY_LIMIT);
    assert_eq!(p, Particle::new(0, BOUNDARY_LIMIT));

    let mut q = Particle::new(0, BOUNDARY_LIMIT);
    q.displace(0, u32::MAX, BOUNDARY_LIMIT);
    assert_eq!(q, Particle::new(0, BOUNDARY_LIMIT));
}

#[test]
fn displace_pulls_outliers_back_in() {
    let mut p = Particle::new(i64::MAX, i64::MIN);
    p.displace(u32::MAX, 0, BOUNDARY_LIMIT);
    assert_eq!(p, Particle::new(BOUNDARY_LIMIT, 0));

    let mut q = Particle::new(-3_000_000, 13_000_000);
    q.displace(0x8000_0000, 0x8000_0000, 2_000_000);
    assert_eq!(q, Particle::new(0, 2_000_000));
}

#[test]
fn displace_with_a_negative_limit_ends_on_the_limit() {
    let mut p = Particle::new(5, 5);
    p.displace(0x8000_0000, 0x8000_0000, -4);
    assert_eq!(p, Particle::new(-4, -4));
}

#[test]
fn a_nonzero_step_moves_an_interior_particle() {
    let before = Particle::new(5_000_000, 5_000_000);
    let mut after = before;
    after.displace(0x8000_0000 + 4_295, 0x8000_0000, BOUNDARY_LIMIT);
    assert_ne!(after, before);
    assert_eq!(after, Particle::new(5_000_001, 5_000_000));

    let mut still = before;
    still.displace(0x8000_0000, 0x8000_0000, BOUNDARY_LIMIT);
    assert_eq!(still, before);
}

#[test]
fn thread_main_keeps_every_particle_in_the_enclosure() {
    let mut list = vec![
        Particle::new(0, 0),
        Particle::new(BOUNDARY_LIMIT, BOUNDARY_LIMIT),
        Particle::new(200_000, 9_800_000),
        Particle::new(5_000_000, 5_000_000),
    ];
    for _ in 0..500 {
        let before = list.clone();
        thread_main(&mut list, BOUNDARY_LIMIT);
        assert_eq!(list.len(), 4);
        for (p, q) in before.iter().zip(list.iter()) {
            assert!(0 <= q.x && q.x <= BOUNDARY_LIMIT);
            assert!(0 <= q.y && q.y <= BOUNDARY_LIMIT);
            assert!((q.x - p.x).abs() <= HALF_STEP);
            assert!((q.y - p.y).abs() <= HALF_STEP);
        }
    }
}

#[test]
fn thread_main_on_an_empty_chunk() {
    let mut list: Vec<Particle> = Vec::new();
    thread_main(&mut list, BOUNDARY_LIMIT);
    assert!(list.is_empty());
}

#[test]
fn thread_main_respects_a_smaller_enclosure() {
    let mut list = vec![Particle::new(9_000_000, 9_000_000); 10];
    thread_main(&mut list, 1_000_000);
    for p in &list {
        assert_eq!(*p, Particle::new(1_000_000, 1_000_000));
    }
}

#[test]
fn many_ticks_never_leave_the_arena() {
    let mut system = ParticleSystem::new();
    for round in 0..200 {
        if round % 2 == 0 {
            system.move_particles();
        } else {
            system.move_particles_threaded();
        }
        assert_eq!(system.particles.len(), PARTICLES_TOTAL);
        for p in &system.particles {
            assert!(0 <= p.x && p.x <= BOUNDARY_LIMIT);
            assert!(0 <= p.y && p.y <= BOUNDARY_LIMIT);
        }
    }
}

#[test]
fn threaded_move_touches_every_chunk() {
    let mut system = ParticleSystem::new();
    let before = system.particles.clone();
    system.move_particles_threaded();
    for quarter in 0..4 {
        let range = quarter * 25..(quarter + 1) * 25;
        assert_ne!(before[range.clone()], system.particles[range]);
    }
    for (p, q) in before.iter().zip(system.particles.iter()) {
        assert!((q.x - p.x).abs() <= HALF_STEP);
        assert!((q.y - p.y).abs() <= HALF_STEP);
    }
}

#[test]
fn two_draws_differ() {
    let first = ParticleSystem::new();
    let second = ParticleSystem::new();
    assert_ne!(first.particles, second.particles);
}
