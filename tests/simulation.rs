use particle_sim::collision::resolve_pair;
use particle_sim::particle::{Particle, LIMIT};
use particle_sim::simulation::{SimError, INITIAL_SPEED};

const UNIT: i64 = 1_000_000;

#[test]
fn wall_reflection_at_low_wall() {
    let mut p = Particle::new(0, 500_000, -5, 0, 40_000, UNIT);
    let mass = p.mass as u128;
    p.update(1);
    // Moved to -5, then mirrored around the contact point 40_000.
    assert_eq!(p.x, 2 * 40_000 - (-5));
    assert_eq!(p.vx, 5);
    assert_eq!(p.y, 500_000);
    assert_eq!(p.vy, 0);
    assert_eq!(p.momentum_transferred, 2 * mass * 5);
    assert_eq!(p.momentum_transferred, 16_000_000_000);
}

#[test]
fn wall_reflection_at_high_wall_and_corner() {
    let mut p = Particle::new(950_000, 955_000, 20_000, 10_000, 40_000, UNIT);
    p.update(1);
    // x: 970_000 + 40_000 >= 1_000_000, mirrored around 960_000.
    assert_eq!(p.x, 2 * 960_000 - 970_000);
    assert_eq!(p.vx, -20_000);
    // y: 965_000 + 40_000 >= 1_000_000, mirrored around 960_000.
    assert_eq!(p.y, 2 * 960_000 - 965_000);
    assert_eq!(p.vy, -10_000);
    assert_eq!(p.momentum_transferred, 2 * 1_600_000_000u128 * (20_000 + 10_000));
}

#[test]
fn free_motion_without_walls() {
    let mut p = Particle::new(500_000, 400_000, 300, -200, 40_000, UNIT);
    p.update(10);
    assert_eq!((p.x, p.y, p.vx, p.vy), (503_000, 398_000, 300, -200));
    assert_eq!(p.momentum_transferred, 0);
}

#[test]
fn update_particles_reflects_and_keeps_store() {
    let mut store = vec![Particle::new(0, 500_000, -5, 0, 40_000, UNIT)];
    let out = Particle::update_particles(&mut store, 1, UNIT).unwrap();
    assert_eq!(out, store);
    assert_eq!(store[0].x, 80_005);
    assert_eq!(store[0].vx, 5);
}

#[test]
fn head_on_exchange() {
    let a = Particle::new(470_000, 500_000, 0, 0, 40_000, UNIT);
    let b = Particle::new(530_000, 500_000, 10, 0, 40_000, UNIT);
    let (a2, b2) = resolve_pair(a, b);
    assert_eq!((a2.vx, a2.vy), (10, 0));
    assert_eq!((b2.vx, b2.vy), (0, 0));
    assert_eq!(a2.x, a.x);
    assert_eq!(b2.x, b.x);
}

#[test]
fn diagonal_exchange_keeps_tangential_parts() {
    // Line of impact along (1, 1); relative velocity (6, 2) projects to (4, 4).
    let a = Particle::new(480_000, 480_000, 0, 0, 40_000, UNIT);
    let b = Particle::new(500_000, 500_000, 6, 2, 40_000, UNIT);
    let (a2, b2) = resolve_pair(a, b);
    assert_eq!((a2.vx, a2.vy), (4, 4));
    assert_eq!((b2.vx, b2.vy), (2, -2));
    // Momentum and kinetic energy of the pair are kept.
    assert_eq!(a2.vx + b2.vx, a.vx + b.vx);
    assert_eq!(a2.vy + b2.vy, a.vy + b.vy);
    let before = a.get_kinetic_energy() + b.get_kinetic_energy();
    let after = a2.get_kinetic_energy() + b2.get_kinetic_energy();
    assert_eq!(before, after);
}

#[test]
fn rounded_exchange_keeps_momentum() {
    let a = Particle::new(480_000, 470_000, 3, -7, 40_000, UNIT);
    let b = Particle::new(510_000, 490_000, 11, 5, 40_000, UNIT);
    let (a2, b2) = resolve_pair(a, b);
    assert_ne!((a2.vx, a2.vy), (a.vx, a.vy));
    assert_eq!(a2.vx + b2.vx, a.vx + b.vx);
    assert_eq!(a2.vy + b2.vy, a.vy + b.vy);
    // Rounding moves the energy by at most 2 m (|dvx - 2 ex| + |dvy - 2 ey| + 2).
    let (ex, ey) = ((a2.vx - a.vx) as i128, (a2.vy - a.vy) as i128);
    let (dvx, dvy) = ((b.vx - a.vx) as i128, (b.vy - a.vy) as i128);
    let bound = 2 * a.mass as i128 * ((dvx - 2 * ex).abs() + (dvy - 2 * ey).abs() + 2);
    let before = (a.get_kinetic_energy() + b.get_kinetic_energy()) as i128;
    let after = (a2.get_kinetic_energy() + b2.get_kinetic_energy()) as i128;
    assert!((after - before).abs() <= bound);
}

#[test]
fn separating_pair_is_not_resolved_when_approach_is_negative() {
    // Relative velocity points from b toward a: the approach test fails.
    let a = Particle::new(470_000, 500_000, 10, 0, 40_000, UNIT);
    let b = Particle::new(530_000, 500_000, 0, 0, 40_000, UNIT);
    assert_eq!(resolve_pair(a, b), (a, b));
}

#[test]
fn distant_pair_is_not_resolved() {
    let a = Particle::new(100_000, 100_000, 0, 0, 40_000, UNIT);
    let b = Particle::new(300_000, 100_000, 10, 0, 40_000, UNIT);
    assert_eq!(resolve_pair(a, b), (a, b));
}

#[test]
fn coinciding_centres_are_skipped() {
    let a = Particle::new(500_000, 500_000, 1, 2, 40_000, UNIT);
    let b = Particle::new(500_000, 500_000, 3, 4, 40_000, UNIT);
    assert_eq!(resolve_pair(a, b), (a, b));
}

#[test]
fn handle_particle_collisions_keeps_slots() {
    let a = Particle::new(470_000, 500_000, 0, 0, 40_000, UNIT);
    let b = Particle::new(530_000, 500_000, 10, 0, 40_000, UNIT);
    let out = Particle::handle_particle_collisions(vec![((3, a), (7, b))]);
    assert_eq!(out.len(), 1);
    assert_eq!((out[0].0).0, 3);
    assert_eq!((out[0].1).0, 7);
    assert_eq!((out[0].0).1.vx, 10);
    assert_eq!((out[0].1).1.vx, 0);
}

#[test]
fn tick_exchanges_velocities_of_colliding_pair() {
    let mut store = vec![
        Particle::new(470_000, 500_000, 0, 0, 40_000, UNIT),
        Particle::new(530_000, 500_000, 10, 0, 40_000, UNIT),
    ];
    let before = store.clone();
    let out = Particle::update_particles(&mut store, 1, UNIT).unwrap();
    // Moved first: (470_000, 0) and (530_010, 10); then exchanged.
    assert_eq!(out[1].x, 530_010);
    assert_eq!(out[0].vx, 10);
    assert_eq!(out[1].vx, 0);
    assert_eq!(out[0].mass as i128 * out[0].vx as i128 + out[1].mass as i128 * out[1].vx as i128,
        before[0].mass as i128 * before[0].vx as i128 + before[1].mass as i128 * before[1].vx as i128);
    assert_eq!(Particle::get_total_kinetic_energy(&out), Particle::get_total_kinetic_energy(&before));
}

#[test]
fn population_with_single_partners_keeps_energy() {
    let mut store = vec![
        Particle::new(200_000, 200_000, 0, 0, 40_000, UNIT),
        Particle::new(260_000, 200_000, 10, 0, 40_000, UNIT),
        Particle::new(700_000, 800_000, 0, 0, 40_000, UNIT),
        Particle::new(760_000, 800_000, 0, 0, 40_000, UNIT),
    ];
    let before = store.clone();
    let out = Particle::update_particles(&mut store, 1, UNIT).unwrap();
    assert_eq!((out[0].vx, out[1].vx), (10, 0));
    assert_eq!(Particle::get_total_kinetic_energy(&out), Particle::get_total_kinetic_energy(&before));
}

#[test]
fn last_write_wins_for_a_particle_in_two_pairs() {
    // The middle particle collides with both neighbours; each pair is resolved
    // from the moved velocities and the later pair's write is kept.
    let mut store = vec![
        Particle::new(440_000, 300_000, 0, 0, 40_000, UNIT),
        Particle::new(500_000, 300_000, 10, 0, 40_000, UNIT),
        Particle::new(560_000, 300_000, 30, 0, 40_000, UNIT),
    ];
    let out = Particle::update_particles(&mut store, 1, UNIT).unwrap();
    // Pair (0, 1) hands 10 to slot 0; pair (1, 2) hands 30 to slot 1 and 10 to slot 2.
    assert_eq!((out[0].vx, out[1].vx, out[2].vx), (10, 30, 10));
}

#[test]
fn tick_rejects_bad_parameters() {
    let mut store = vec![Particle::new(500_000, 500_000, 1, 1, 40_000, UNIT)];
    let before = store.clone();
    assert_eq!(Particle::update_particles(&mut store, 0, UNIT), Err(SimError::InvalidParameter));
    assert_eq!(Particle::update_particles(&mut store, 1, 0), Err(SimError::InvalidParameter));
    assert_eq!(Particle::update_particles(&mut store, 1, LIMIT + 1), Err(SimError::OutOfRange));
    assert_eq!(store, before);
}

#[test]
fn tick_rejects_motion_out_of_range() {
    let mut store = vec![
        Particle::new(500_000, 500_000, 1, 1, 40_000, UNIT),
        Particle::new(500_000, 500_000, LIMIT, 0, 40_000, UNIT),
    ];
    let before = store.clone();
    assert_eq!(Particle::update_particles(&mut store, 10, UNIT), Err(SimError::OutOfRange));
    assert_eq!(store, before);
}

#[test]
fn tick_rejects_ill_formed_particle() {
    let mut bad = Particle::new(500_000, 500_000, 1, 1, 40_000, UNIT);
    bad.mass = 1;
    let mut store = vec![bad];
    assert_eq!(Particle::update_particles(&mut store, 1, UNIT), Err(SimError::OutOfRange));
}

#[test]
fn generation_rejects_bad_parameters() {
    assert_eq!(Particle::generate_particles(0, 10, 100), Err(SimError::InvalidParameter));
    assert_eq!(Particle::generate_particles(3, 0, 100), Err(SimError::InvalidParameter));
    assert_eq!(Particle::generate_particles(3, 10, -1), Err(SimError::InvalidParameter));
    assert_eq!(Particle::generate_particles(3, LIMIT + 1, 100), Err(SimError::OutOfRange));
    assert_eq!(Particle::generate_particles(3, 10, LIMIT + 1), Err(SimError::OutOfRange));
}

#[test]
fn generated_particles_keep_margin_and_speed() {
    let ps = Particle::generate_particles(200, 10_000, 400_000).unwrap();
    assert_eq!(ps.len(), 200);
    for p in &ps {
        assert!(15_000 <= p.x && p.x <= 385_000);
        assert!(15_000 <= p.y && p.y <= 385_000);
        assert!(-INITIAL_SPEED <= p.vx && p.vx < INITIAL_SPEED);
        assert!(-INITIAL_SPEED <= p.vy && p.vy < INITIAL_SPEED);
        assert_eq!(p.radius, 10_000);
        assert_eq!(p.mass, 100_000_000);
        assert_eq!(p.momentum_transferred, 0);
        assert_eq!(p.box_size, 400_000);
    }
    // The draws vary from one particle to the next.
    assert!(ps.iter().any(|p| p.x != ps[0].x));
    assert!(ps.iter().any(|p| p.vx != ps[0].vx));
}

#[test]
fn small_box_places_at_margin() {
    // The margin of a radius of 10 is 15; a box of 20 leaves no interval.
    let ps = Particle::generate_particles(5, 10, 20).unwrap();
    for p in &ps {
        assert_eq!((p.x, p.y), (15, 15));
    }
}

#[test]
fn placement_spreads_over_margin_interval() {
    let ps = Particle::generate_particles(2_000, 100, 1_000).unwrap();
    for p in &ps {
        assert!(150 <= p.x && p.x <= 850 && 150 <= p.y && p.y <= 850);
    }
    // Uniform draws on the interval rarely land on its ends.
    let on_ends = ps.iter().filter(|p| p.x == 150 || p.x == 850).count();
    assert!(on_ends < 40);
}

#[test]
fn random_places_inside_margin() {
    let p = Particle::random(0, 399_999, -3, 7, 10_000, 400_000);
    assert_eq!((p.x, p.y), (15_000, 385_000));
    assert_eq!((p.vx, p.vy), (-3, 7));
    let q = Particle::random(200_000, 100_000, 0, 0, 10_000, 400_000);
    assert_eq!((q.x, q.y), (200_000, 100_000));
    // A box too small for the margin puts the particle at the margin.
    let r = Particle::random(5, 5, 0, 0, 10, 20);
    assert_eq!((r.x, r.y), (15, 15));
}
