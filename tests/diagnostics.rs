use particle_sim::particle::Particle;

#[test]
fn area_is_sum_of_squared_radii() {
    let a = Particle::new(10, 10, 0, 0, 3, 100);
    let b = Particle::new(50, 50, 0, 0, 4, 100);
    assert_eq!(Particle::get_area(&[a, b]), 25);
    assert_eq!(Particle::get_area(&[b, a]), 25);
    assert_eq!(Particle::get_area(&[]), 0);
}

#[test]
fn totals_do_not_depend_on_order() {
    let a = Particle::new(10, 10, 3, 4, 3, 100);
    let b = Particle::new(50, 50, -1, 2, 4, 100);
    let c = Particle::new(70, 20, 0, -6, 5, 100);
    let one = [a, b, c];
    let other = [c, a, b];
    assert_eq!(Particle::get_area(&one), Particle::get_area(&other));
    assert_eq!(Particle::get_total_kinetic_energy(&one), Particle::get_total_kinetic_energy(&other));
    assert_eq!(Particle::get_total_momentum_transferred(&one), Particle::get_total_momentum_transferred(&other));
}

#[test]
fn kinetic_energy_is_mass_times_speed_squared() {
    let a = Particle::new(10, 10, 3, 4, 3, 100);
    assert_eq!(a.get_kinetic_energy(), 9 * 25);
    let b = Particle::new(50, 50, -1, 2, 4, 100);
    assert_eq!(Particle::get_total_kinetic_energy(&[a, b]), Some(9 * 25 + 16 * 5));
}

#[test]
fn momentum_total_accumulates_and_reports_overflow() {
    let mut a = Particle::new(0, 50, -5, 0, 10, 100);
    a.update(1);
    assert_eq!(a.momentum_transferred, 2 * 100 * 5);
    let mut big = Particle::new(50, 50, 0, 0, 10, 100);
    big.momentum_transferred = u128::MAX;
    assert_eq!(Particle::get_total_momentum_transferred(&[a]), Some(1_000));
    assert_eq!(Particle::get_total_momentum_transferred(&[a, big]), None);
}
