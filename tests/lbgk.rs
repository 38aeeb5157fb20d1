use lbm_flow::lbgk::{BoundaryScheme, Lbgk};
use lbm_flow::scalar::Scalar;

#[derive(Clone, Copy, Debug, PartialEq)]
struct F(f32);

impl Scalar for F {
    fn zero() -> Self {
        F(0.0)
    }

    fn from_ratio(numerator: u32, denominator: u32) -> Self {
        F(numerator as f32 / denominator as f32)
    }

    fn from_integer(value: isize) -> Self {
        F(value as f32)
    }

    fn plus(self, rhs: Self) -> Self {
        F(self.0 + rhs.0)
    }

    fn minus(self, rhs: Self) -> Self {
        F(self.0 - rhs.0)
    }

    fn times(self, rhs: Self) -> Self {
        F(self.0 * rhs.0)
    }

    fn over(self, rhs: Self) -> Self {
        F(self.0 / rhs.0)
    }

    fn square_root(self) -> Self {
        F(self.0.sqrt())
    }

    fn is_positive(self) -> bool {
        self.0 > 0.0
    }
}

use BoundaryScheme::{BounceBack, Inflow, Outflow, Periodic, SpecularReflection};

const SIZE: [usize; 2] = [5, 5];

fn solver(schemes: [[BoundaryScheme; 2]; 2], velocity: [f32; 2]) -> Lbgk<F, 2, 9> {
    Lbgk::new_d2q9(&SIZE, &schemes, F(1.0), &[F(velocity[0]), F(velocity[1])])
}

fn total_density(lbgk: &Lbgk<F, 2, 9>) -> f32 {
    let mut sum = 0.0;
    for x in 0..SIZE[0] {
        for y in 0..SIZE[1] {
            sum += lbgk.density(&[x, y]).0;
        }
    }
    sum
}

#[test]
fn initial_state_is_uniform() {
    let lbgk = solver([[Periodic; 2]; 2], [0.1, 0.0]);
    for x in 0..SIZE[0] {
        for y in 0..SIZE[1] {
            assert_eq!(lbgk.density(&[x, y]), F(1.0));
            assert_eq!(lbgk.velocity_vector(&[x, y]), [F(0.1), F(0.0)]);
            assert!(!lbgk.object(&[x, y]));
        }
    }
}

#[test]
fn velocity_is_vector_length() {
    let lbgk = Lbgk::new_d2q9(&SIZE, &[[Periodic; 2]; 2], F(1.0), &[F(0.03), F(0.04)]);
    assert!((lbgk.velocity(&[2, 2]).0 - 0.05).abs() < 1e-7);
}

#[test]
fn relaxation_time_formula() {
    let lbgk = solver([[Periodic; 2]; 2], [0.1, 0.0]);
    // 20 * 0.1 / (1/3 * 200) + 0.5
    let tau = lbgk.relaxation_time(F(0.1), F(20.0), F(200.0));
    assert!((tau.0 - 0.53).abs() < 1e-6);
}

#[test]
fn set_object_round_trip() {
    let mut lbgk = solver([[Periodic; 2]; 2], [0.1, 0.0]);
    lbgk.set_object(&[2, 3], true);
    assert!(lbgk.object(&[2, 3]));
    assert!(!lbgk.object(&[3, 2]));
    lbgk.set_object(&[2, 3], false);
    assert!(!lbgk.object(&[2, 3]));
}

#[test]
fn periodic_mass_is_conserved() {
    let mut lbgk = solver([[Periodic; 2]; 2], [0.1, 0.05]);
    let before = total_density(&lbgk);
    for _ in 0..50 {
        lbgk.iterate(F(0.6));
    }
    assert!((total_density(&lbgk) - before).abs() < 1e-3);
}

#[test]
fn mass_is_conserved_around_an_obstacle() {
    let mut lbgk = solver([[Periodic; 2]; 2], [0.1, 0.0]);
    lbgk.set_object(&[2, 2], true);
    let fluid_before = total_density(&lbgk) - lbgk.density(&[2, 2]).0;
    for _ in 0..50 {
        lbgk.iterate(F(0.6));
    }
    let fluid_after = total_density(&lbgk) - lbgk.density(&[2, 2]).0;
    assert!((fluid_after - fluid_before).abs() < 1e-3);
    // the solid cell keeps its state
    assert_eq!(lbgk.density(&[2, 2]), F(1.0));
    assert_eq!(lbgk.velocity_vector(&[2, 2]), [F(0.1), F(0.0)]);
}

#[test]
fn specular_walls_conserve_mass() {
    let mut lbgk = solver([[Periodic; 2], [SpecularReflection; 2]], [0.05, 0.05]);
    let before = total_density(&lbgk);
    for _ in 0..50 {
        lbgk.iterate(F(0.6));
    }
    assert!((total_density(&lbgk) - before).abs() < 1e-3);
}

#[test]
fn equilibrium_is_a_fixed_point() {
    let mut lbgk = solver([[Periodic; 2]; 2], [0.1, 0.0]);
    lbgk.iterate(F(0.6));
    for x in 0..SIZE[0] {
        for y in 0..SIZE[1] {
            assert!((lbgk.density(&[x, y]).0 - 1.0).abs() < 1e-6);
            let u = lbgk.velocity_vector(&[x, y]);
            assert!((u[0].0 - 0.1).abs() < 1e-6);
            assert!(u[1].0.abs() < 1e-6);
        }
    }
}

#[test]
fn bounce_back_reverses_momentum_at_the_wall() {
    let mut periodic = solver([[Periodic; 2]; 2], [0.1, 0.0]);
    let mut walled = solver([[BounceBack; 2], [Periodic; 2]], [0.1, 0.0]);
    periodic.iterate(F(0.6));
    walled.iterate(F(0.6));
    let free = periodic.velocity_vector(&[4, 2])[0].0;
    let at_wall = walled.velocity_vector(&[4, 2])[0].0;
    assert!(at_wall < free);
}

#[test]
fn obstacle_reverses_momentum_in_front_of_it() {
    let mut periodic = solver([[Periodic; 2]; 2], [0.1, 0.0]);
    let mut blocked = solver([[Periodic; 2]; 2], [0.1, 0.0]);
    blocked.set_object(&[3, 2], true);
    periodic.iterate(F(0.6));
    blocked.iterate(F(0.6));
    let free = periodic.velocity_vector(&[2, 2])[0].0;
    let in_front = blocked.velocity_vector(&[2, 2])[0].0;
    assert!(in_front < free);
}

#[test]
fn inflow_side_is_pinned() {
    let mut lbgk = solver([[Inflow, Outflow], [Periodic; 2]], [0.1, 0.0]);
    lbgk.set_object(&[2, 2], true);
    for _ in 0..20 {
        lbgk.iterate(F(0.6));
    }
    for y in 0..SIZE[1] {
        assert_eq!(lbgk.density(&[0, y]), F(1.0));
        assert_eq!(lbgk.velocity_vector(&[0, y]), [F(0.1), F(0.0)]);
    }
}

#[test]
fn outflow_side_copies_its_neighbour() {
    let mut lbgk = solver([[Inflow, Outflow], [SpecularReflection; 2]], [0.1, 0.0]);
    lbgk.set_object(&[2, 2], true);
    for _ in 0..5 {
        lbgk.iterate(F(0.6));
    }
    for y in 0..SIZE[1] {
        assert_eq!(lbgk.density(&[4, y]), lbgk.density(&[3, y]));
        assert_eq!(lbgk.velocity_vector(&[4, y]), lbgk.velocity_vector(&[3, y]));
    }
}

#[test]
fn vorticity_is_zero_on_the_ring_and_in_uniform_flow() {
    let mut lbgk = solver([[Periodic; 2]; 2], [0.1, 0.0]);
    lbgk.iterate(F(0.6));
    for x in 0..SIZE[0] {
        assert_eq!(lbgk.vorticity(&[x, 0]), F(0.0));
        assert_eq!(lbgk.vorticity(&[x, 4]), F(0.0));
    }
    assert!(lbgk.vorticity(&[2, 2]).0.abs() < 1e-6);
}

#[test]
fn vorticity_around_an_obstacle() {
    let mut lbgk = solver([[Inflow, Outflow], [SpecularReflection; 2]], [0.1, 0.0]);
    lbgk.set_object(&[2, 2], true);
    for _ in 0..10 {
        lbgk.iterate(F(0.6));
    }
    // flow passing above and below the obstacle turns in opposite senses
    let above = lbgk.vorticity(&[2, 3]).0;
    let below = lbgk.vorticity(&[2, 1]).0;
    assert!(above * below < 0.0);
    assert_eq!(lbgk.vorticity(&[0, 2]), F(0.0));
}

#[test]
fn uniform_periodic_flow_stays_uniform() {
    let mut lbgk = solver([[Periodic; 2]; 2], [0.1, 0.0]);
    for _ in 0..1000 {
        lbgk.iterate(F(0.6));
    }
    assert!((total_density(&lbgk) - 25.0).abs() < 1e-3);
    let u0 = lbgk.velocity_vector(&[0, 0]);
    for x in 0..SIZE[0] {
        for y in 0..SIZE[1] {
            let u = lbgk.velocity_vector(&[x, y]);
            assert!((u[0].0 - u0[0].0).abs() < 1e-4);
            assert!((u[1].0 - u0[1].0).abs() < 1e-4);
        }
    }
}
