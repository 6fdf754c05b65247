use particle_sim::grid::{build_grid, grid_size};
use particle_sim::particle::Particle;

#[test]
fn grid_side_follows_population() {
    assert_eq!(grid_size(0), 2);
    assert_eq!(grid_size(1), 2);
    assert_eq!(grid_size(19), 2);
    assert_eq!(grid_size(20), 3);
    assert_eq!(grid_size(50), 4);
    assert_eq!(grid_size(100), 6);
    assert_eq!(grid_size(1_000), 10);
    assert_eq!(grid_size(10_000), 15);
    assert_eq!(grid_size(100_000), 19);
}

#[test]
fn centre_particle_stands_in_every_cell() {
    let particles = vec![Particle::new(500_000, 500_000, 0, 0, 40_000, 1_000_000)];
    let grid = build_grid(&particles, 1_000_000);
    assert_eq!(grid.len(), 4);
    for cell in &grid {
        assert_eq!(cell.len(), 1);
        assert_eq!(cell[0].0, 0);
    }
}

#[test]
fn corner_particle_stands_in_one_cell() {
    let particles = vec![Particle::new(250_000, 750_000, 0, 0, 40_000, 1_000_000)];
    let grid = build_grid(&particles, 1_000_000);
    let sizes: Vec<usize> = grid.iter().map(|c| c.len()).collect();
    // Cells are numbered column by column: (0, 0), (0, 1), (1, 0), (1, 1).
    assert_eq!(sizes, vec![0, 1, 0, 0]);
}
