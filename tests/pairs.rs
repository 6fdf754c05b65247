use particle_sim::particle::Particle;

const UNIT: i64 = 1_000_000;

fn p(x: i64, y: i64) -> Particle {
    Particle::new(x, y, 0, 0, 40_000, UNIT)
}

fn strip(pairs: &[((usize, Particle), (usize, Particle))]) -> Vec<(Particle, Particle)> {
    pairs.iter().map(|((_, a), (_, b))| (*a, *b)).collect()
}

fn get_matching_count(a: &[(Particle, Particle)], b: &[(Particle, Particle)]) -> usize {
    a.iter().zip(b.iter()).filter(|&(a, b)| a.0 == b.0 && a.1 == b.1).count()
}

fn scenario_no_pairs() {
    let particles = vec![
        p(250_000, 250_000),
        p(250_000, 750_000),
        p(750_000, 750_000),
        p(750_000, 250_000),
    ];
    let pairs = strip(&Particle::generate_pairs(&particles, UNIT));
    let expected_pairs: Vec<(Particle, Particle)> = vec![];
    assert_eq!(pairs.len(), expected_pairs.len());
    let matching = get_matching_count(&pairs, &expected_pairs);
    assert!(matching == pairs.len() && matching == expected_pairs.len());
}

fn scenario_pairs() {
    let particles = vec![
        p(100_000, 100_000),
        p(250_000, 250_000),
        p(900_000, 900_000),
        p(800_000, 800_000),
    ];
    let pairs = strip(&Particle::generate_pairs(&particles, UNIT));
    let expected_pairs = vec![
        (p(100_000, 100_000), p(250_000, 250_000)),
        (p(900_000, 900_000), p(800_000, 800_000)),
    ];
    assert_eq!(pairs.len(), expected_pairs.len());
    let matching = get_matching_count(&pairs, &expected_pairs);
    assert!(matching == pairs.len() && matching == expected_pairs.len());
}

fn scenario_multiple_pairs_per_grid_cell() {
    let particles = vec![
        p(100_000, 100_000),
        p(150_000, 150_000),
        p(250_000, 250_000),
        p(800_000, 800_000),
    ];
    let pairs = strip(&Particle::generate_pairs(&particles, UNIT));
    let expected_pairs = vec![
        (p(100_000, 100_000), p(150_000, 150_000)),
        (p(100_000, 100_000), p(250_000, 250_000)),
        (p(150_000, 150_000), p(250_000, 250_000)),
    ];
    assert_eq!(pairs.len(), expected_pairs.len());
    let matching = get_matching_count(&pairs, &expected_pairs);
    assert!(matching == pairs.len() && matching == expected_pairs.len());
}

fn scenario_pairs_for_particles_on_cell_border() {
    let particles = vec![
        p(500_000, 500_000),
        p(250_000, 250_000),
        p(250_000, 750_000),
        p(750_000, 750_000),
    ];
    let pairs = strip(&Particle::generate_pairs(&particles, UNIT));
    let expected_pairs = vec![
        (p(500_000, 500_000), p(250_000, 250_000)),
        (p(500_000, 500_000), p(250_000, 750_000)),
        (p(500_000, 500_000), p(750_000, 750_000)),
    ];
    assert_eq!(pairs.len(), expected_pairs.len());
    let matching = get_matching_count(&pairs, &expected_pairs);
    assert!(matching == pairs.len() && matching == expected_pairs.len());
}

#[test]
fn test_generate_no_pairs() {
    scenario_no_pairs();
}

#[test]
fn particle_test_generate_no_pairs() {
    scenario_no_pairs();
}

#[test]
fn test_generate_pairs() {
    scenario_pairs();
}

#[test]
fn particle_test_generate_pairs() {
    scenario_pairs();
}

#[test]
fn test_generate_multiple_pairs_per_grid_cell() {
    scenario_multiple_pairs_per_grid_cell();
}

#[test]
fn particle_test_generate_multiple_pairs_per_grid_cell() {
    scenario_multiple_pairs_per_grid_cell();
}

#[test]
fn test_generate_pairs_for_particles_on_cell_border() {
    scenario_pairs_for_particles_on_cell_border();
}

#[test]
fn particle_test_generate_pairs_for_particles_on_cell_border() {
    scenario_pairs_for_particles_on_cell_border();
}

#[test]
fn test_generate_pairs_performance() {
    let num_particles = 10_000;
    let box_size = 800_000;
    let particles = Particle::generate_particles(num_particles, 2_000, box_size).unwrap();
    let pairs = Particle::generate_pairs(&particles, box_size);
    assert!(!pairs.is_empty());
    assert!(pairs.len() < num_particles * (num_particles - 1) / 2);
    for ((i, a), (j, b)) in &pairs {
        assert!(i < j);
        assert_eq!(particles[*i], *a);
        assert_eq!(particles[*j], *b);
    }
}

#[test]
fn border_slots_carry_store_indices() {
    let particles = vec![
        p(500_000, 500_000),
        p(250_000, 250_000),
        p(250_000, 750_000),
        p(750_000, 750_000),
    ];
    let pairs = Particle::generate_pairs(&particles, UNIT);
    let slots: Vec<(usize, usize)> = pairs.iter().map(|((i, _), (j, _))| (*i, *j)).collect();
    assert_eq!(slots, vec![(0, 1), (0, 2), (0, 3)]);
}

#[test]
fn straddling_pair_is_listed_once_per_shared_cell() {
    // Both circles cross the vertical and the horizontal mid lines.
    let particles = vec![p(490_000, 490_000), p(510_000, 510_000)];
    let pairs = Particle::generate_pairs(&particles, UNIT);
    assert_eq!(pairs.len(), 4);
    for ((i, _), (j, _)) in &pairs {
        assert_eq!((*i, *j), (0, 1));
    }
}

#[test]
fn empty_store_has_no_pairs() {
    let particles: Vec<Particle> = vec![];
    assert!(Particle::generate_pairs(&particles, UNIT).is_empty());
}

#[test]
fn overlapping_circles_in_distant_cells_are_found() {
    // Centres on either side of the vertical mid line, circles overlapping.
    let particles = vec![p(470_000, 200_000), p(530_000, 200_000)];
    let pairs = Particle::generate_pairs(&particles, UNIT);
    assert!(pairs.iter().any(|((i, _), (j, _))| *i == 0 && *j == 1));
}
