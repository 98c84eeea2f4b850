use boids::boid::{Boid, Color, NEIGHBOUR_RADIUS};
use boids::sim::{resize_flock, spawn_boid, spawn_boid_at, step, SPAWN_MAX_SPEED, SPAWN_SPEED_RANGE};
use boids::vec2::Vec2;

const W: i64 = 800_000;
const H: i64 = 600_000;

fn white() -> Color {
    Color { r: 255, g: 255, b: 255, a: 255 }
}

fn boid(px: i64, py: i64, vx: i64, vy: i64) -> Boid {
    Boid {
        pos: Vec2::new(px, py),
        vel: Vec2::new(vx, vy),
        acc: Vec2::zero(),
        max_speed: 500_000,
        size: 10_000,
        color: white(),
    }
}

fn norm_sq(v: Vec2) -> i128 {
    v.x as i128 * v.x as i128 + v.y as i128 * v.y as i128
}

#[test]
fn single_agent_has_no_neighbours_and_drifts() {
    let mut b = boid(100_000, 100_000, 10_000, 0);
    let snapshot = [b];
    b.flock(&snapshot, 1000, 1000, 1000);
    assert_eq!(b.acc, Vec2::new(0, 0));
    b.update(100_000, W, H);
    assert_eq!(b.pos, Vec2::new(101_000, 100_000));
    assert_eq!(b.vel, Vec2::new(10_000, 0));
    assert_eq!(b.acc, Vec2::new(0, 0));
}

#[test]
fn alignment_on_identical_velocities() {
    let a = boid(100_000, 100_000, 200_000, 0);
    let b = boid(150_000, 100_000, 200_000, 0);
    let ns = a.neighbours(&[a, b], NEIGHBOUR_RADIUS);
    assert_eq!(ns, vec![b]);
    assert_eq!(a.alignment(&ns), Vec2::new(300_000, 0));
    assert_eq!(a.coherence(&ns), Vec2::new(300_000, 0));
    assert_eq!(a.separation(&ns), Vec2::new(-700_000, 0));
}

#[test]
fn flock_weights_scale_the_rules() {
    let a = boid(100_000, 100_000, 200_000, 0);
    let b = boid(150_000, 100_000, 200_000, 0);
    let mut one = a;
    one.flock(&[a, b], 1000, 0, 0);
    assert_eq!(one.acc, Vec2::new(300_000, 0));
    let mut two = a;
    two.flock(&[a, b], 2000, 0, 0);
    assert_eq!(two.acc, Vec2::new(600_000, 0));
    let mut all = a;
    all.flock(&[a, b], 1000, 1000, 1000);
    assert_eq!(all.acc, Vec2::new(300_000 + 300_000 - 700_000, 0));
    assert_eq!(all.pos, a.pos);
    assert_eq!(all.vel, a.vel);
}

#[test]
fn coincident_agents_are_not_neighbours() {
    let a = boid(0, 0, 0, 0);
    let b = boid(0, 0, 0, 0);
    let ns = a.neighbours(&[a, b], NEIGHBOUR_RADIUS);
    assert!(ns.is_empty());
    assert_eq!(a.alignment(&ns), Vec2::new(0, 0));
    assert_eq!(a.coherence(&ns), Vec2::new(0, 0));
    assert_eq!(a.separation(&ns), Vec2::new(0, 0));
    let mut c = a;
    c.flock(&[a, b], 1000, 1000, 1000);
    assert_eq!(c.acc, Vec2::new(0, 0));
}

#[test]
fn near_coincident_separation_is_finite_and_repulsive() {
    let a = boid(0, 0, 0, 0);
    let b = boid(1, 0, 0, 0);
    let ns = a.neighbours(&[a, b], NEIGHBOUR_RADIUS);
    assert_eq!(ns.len(), 1);
    assert_eq!(a.separation(&ns), Vec2::new(-500_000, 0));
}

#[test]
fn speed_clamp_holds_velocity_to_top_speed() {
    let mut b = boid(100_000, 100_000, 0, 0);
    b.acc = Vec2::new(10_000_000, 0);
    b.update(1_000_000, W, H);
    assert_eq!(b.vel, Vec2::new(500_000, 0));
    assert_eq!(b.vel.length(), 500_000);
    assert_eq!(b.pos, Vec2::new(600_000, 100_000));
}

#[test]
fn crossing_the_right_edge_wraps_to_zero() {
    let mut b = boid(W - 1_000, H / 2, 1_000_000, 0);
    b.update(100_000, W, H);
    assert_eq!(b.vel, Vec2::new(500_000, 0));
    assert_eq!(b.pos, Vec2::new(0, H / 2));
}

#[test]
fn crossing_the_left_edge_lands_on_the_far_edge() {
    let mut b = boid(0, 5_000, -10_000, 0);
    b.update(100_000, W, H);
    assert_eq!(b.pos, Vec2::new(W, 5_000));
}

#[test]
fn update_keeps_speed_and_position_in_bounds() {
    let mut b = boid(400_000, 300_000, 300_000, -400_000);
    b.acc = Vec2::new(-2_000_000, 3_000_000);
    b.update(50_000, W, H);
    assert!(norm_sq(b.vel) <= 500_000i128 * 500_000);
    assert!(0 <= b.pos.x && b.pos.x < W);
    assert!(0 <= b.pos.y && b.pos.y < H);
    assert_eq!(b.acc, Vec2::new(0, 0));
}

#[test]
fn neighbours_leave_out_the_boid_itself() {
    let a = boid(100_000, 100_000, 0, 0);
    let b = boid(120_000, 100_000, 0, 0);
    let far = boid(300_000, 100_000, 0, 0);
    let edge = boid(200_000, 100_000, 0, 0);
    let ns = a.neighbours(&[b, a, far, edge, a], NEIGHBOUR_RADIUS);
    assert_eq!(ns, vec![b]);
    assert!(!ns.contains(&a));
}

#[test]
fn rules_are_zero_without_neighbours() {
    let a = boid(100_000, 100_000, 123_000, -45_000);
    assert_eq!(a.alignment(&[]), Vec2::new(0, 0));
    assert_eq!(a.coherence(&[]), Vec2::new(0, 0));
    assert_eq!(a.separation(&[]), Vec2::new(0, 0));
}

#[test]
fn separation_of_an_isolated_pair_is_opposite() {
    let a = boid(100_000, 100_000, 0, 0);
    let b = boid(130_000, 140_000, 0, 0);
    let fa = a.separation(&a.neighbours(&[a, b], NEIGHBOUR_RADIUS));
    let fb = b.separation(&b.neighbours(&[a, b], NEIGHBOUR_RADIUS));
    assert_eq!(fa, Vec2::new(-300_000, -400_000));
    assert_eq!(fb, Vec2::new(300_000, 400_000));
}

#[test]
fn separation_of_a_moving_pair_is_opposite_around_the_velocity() {
    let a = boid(100_000, 100_000, 20_000, 10_000);
    let b = boid(130_000, 140_000, 20_000, 10_000);
    let fa = a.separation(&a.neighbours(&[a, b], NEIGHBOUR_RADIUS));
    let fb = b.separation(&b.neighbours(&[a, b], NEIGHBOUR_RADIUS));
    assert_eq!(fa.x + a.vel.x, -(fb.x + b.vel.x));
    assert_eq!(fa.y + a.vel.y, -(fb.y + b.vel.y));
}

#[test]
fn step_uses_the_flock_as_it_stood() {
    let a = boid(100_000, 100_000, 200_000, 0);
    let b = boid(150_000, 100_000, 200_000, 0);
    let mut flock = vec![a, b];
    step(&mut flock, 1000, 1000, 1000, 10_000, W, H);
    let mut ea = a;
    ea.flock(&[a, b], 1000, 1000, 1000);
    ea.update(10_000, W, H);
    let mut eb = b;
    eb.flock(&[a, b], 1000, 1000, 1000);
    eb.update(10_000, W, H);
    assert_eq!(flock, vec![ea, eb]);
    assert_eq!(flock[0].acc, Vec2::new(0, 0));
}

#[test]
fn resize_flock_grows_and_shrinks() {
    let a = boid(1, 2, 3, 4);
    let fresh = boid(5, 6, 7, 8);
    let mut flock = vec![a];
    resize_flock(&mut flock, 3, fresh);
    assert_eq!(flock, vec![a, fresh, fresh]);
    resize_flock(&mut flock, 1, fresh);
    assert_eq!(flock, vec![a]);
    resize_flock(&mut flock, 0, fresh);
    assert!(flock.is_empty());
}

#[test]
fn spawned_boid_is_white_and_at_rest() {
    let b = spawn_boid(Vec2::new(7, 9), Vec2::new(-3, 4));
    assert_eq!(b.pos, Vec2::new(7, 9));
    assert_eq!(b.vel, Vec2::new(-3, 4));
    assert_eq!(b.acc, Vec2::new(0, 0));
    assert_eq!(b.max_speed, SPAWN_MAX_SPEED);
    assert_eq!(b.size, 10_000);
    assert_eq!(b.color, white());
}

#[test]
fn spawned_boid_at_has_a_random_velocity_in_range() {
    let mut seen_other = false;
    for _ in 0..50 {
        let b = spawn_boid_at(10, 20);
        assert_eq!(b.pos, Vec2::new(10, 20));
        assert!(-SPAWN_SPEED_RANGE <= b.vel.x && b.vel.x <= SPAWN_SPEED_RANGE);
        assert!(-SPAWN_SPEED_RANGE <= b.vel.y && b.vel.y <= SPAWN_SPEED_RANGE);
        if b.vel.x != -SPAWN_SPEED_RANGE || b.vel.y != -SPAWN_SPEED_RANGE {
            seen_other = true;
        }
    }
    assert!(seen_other);
}
