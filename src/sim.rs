use vstd::prelude::*;
use crate::vec2::{Vec2, bounded};
use crate::boid::{
    Boid, Color, all_wf, flocked, updated, ACC_BOUND, COORD_BOUND, MAX_FLOCK,
};

verus! {

/// Top speed of a spawned boid: 500 pixels per second.
pub const SPAWN_MAX_SPEED: i64 = 500_000;

/// Drawn radius of a spawned boid: 10 pixels.
pub const SPAWN_SIZE: i64 = 10_000;

/// Bound on each component of a spawned boid's first velocity: 100 pixels per second.
pub const SPAWN_SPEED_RANGE: i64 = 100_000;

/// Opaque white.
pub open spec fn white() -> Color {
    Color { r: 255, g: 255, b: 255, a: 255 }
}

/// A fresh white boid at `pos` moving at `vel`, at rest otherwise.
pub fn spawn_boid(pos: Vec2, vel: Vec2) -> (r: Boid)
    ensures
        r.pos == pos,
        r.vel == vel,
        r.acc@ == (0int, 0int),
        r.max_speed == SPAWN_MAX_SPEED,
        r.size == SPAWN_SIZE,
        r.color == white(),
{
    Boid {
        pos,
        vel,
        acc: Vec2::zero(),
        max_speed: SPAWN_MAX_SPEED,
        size: SPAWN_SIZE,
        color: Color { r: 255, g: 255, b: 255, a: 255 },
    }
}

/// A fresh white boid at `(x, y)` with a random velocity whose components lie
/// in `[-SPAWN_SPEED_RANGE, SPAWN_SPEED_RANGE]`.
pub fn spawn_boid_at(x: i64, y: i64) -> (r: Boid)
    ensures
        r.pos@ == (x as int, y as int),
        bounded(r.vel@, SPAWN_SPEED_RANGE as int),
        r.acc@ == (0int, 0int),
        r.max_speed == SPAWN_MAX_SPEED,
        r.size == SPAWN_SIZE,
        r.color == white(),
{
    let vel = Vec2::random(-SPAWN_SPEED_RANGE, SPAWN_SPEED_RANGE);
    spawn_boid(Vec2::new(x, y), vel)
}

/// Grows the flock with copies of `fresh` or drops boids from its tail until it
/// holds `target` boids; the boids kept are unchanged.
pub fn resize_flock(boids: &mut Vec<Boid>, target: usize, fresh: Boid)
    ensures
        final(boids)@.len() == target,
        forall|i: int|
            0 <= i < target && i < old(boids)@.len() ==> #[trigger] final(boids)@[i] == old(boids)@[i],
        forall|i: int| old(boids)@.len() <= i < target ==> #[trigger] final(boids)@[i] == fresh,
{
    let ghost start = boids@;
    if boids.len() > target {
        while boids.len() > target
            invariant
                target <= boids@.len() <= start.len(),
                forall|i: int| 0 <= i < boids@.len() ==> #[trigger] boids@[i] == start[i],
            decreases boids@.len(),
        {
            boids.pop();
        }
    } else {
        while boids.len() < target
            invariant
                start.len() <= boids@.len() <= target,
                forall|i: int| 0 <= i < start.len() ==> #[trigger] boids@[i] == start[i],
                forall|i: int| start.len() <= i < boids@.len() ==> #[trigger] boids@[i] == fresh,
            decreases target - boids@.len(),
        {
            boids.push(fresh);
        }
    }
}

/// Every boid of `s` is at rest: no acceleration is pending.
pub open spec fn all_at_rest(s: Seq<Boid>) -> bool {
    forall|i: int| 0 <= i < s.len() ==> (#[trigger] s[i]).acc@ == (0int, 0int)
}

/// One frame of the simulation: each boid, in order, flocks among the boids
/// as they stood before the frame, then advances by `dt_us` microseconds on a
/// screen of `width` by `height`. Boids handled later still see the earlier
/// ones as they were.
pub fn step(
    boids: &mut Vec<Boid>,
    alignment_mult: u16,
    cohesion_mult: u16,
    separation_mult: u16,
    dt_us: u32,
    width: i64,
    height: i64,
)
    requires
        all_wf(old(boids)@),
        forall|i: int|
            0 <= i < old(boids)@.len() ==> bounded(#[trigger] old(boids)@[i].acc@, ACC_BOUND / 8),
        old(boids)@.len() <= MAX_FLOCK,
        0 <= width <= COORD_BOUND,
        0 <= height <= COORD_BOUND,
    ensures
        final(boids)@.len() == old(boids)@.len(),
        forall|i: int|
            0 <= i < old(boids)@.len() ==> #[trigger] final(boids)@[i] == updated(
                flocked(
                    old(boids)@[i],
                    old(boids)@,
                    alignment_mult as int,
                    cohesion_mult as int,
                    separation_mult as int,
                ),
                dt_us as int,
                width as int,
                height as int,
            ),
        all_wf(final(boids)@),
        all_at_rest(final(boids)@),
{
    let snapshot = snapshot_of(boids);
    let mut i: usize = 0;
    while i < boids.len()
        invariant
            snapshot@ == old(boids)@,
            boids@.len() == snapshot@.len(),
            i <= boids@.len(),
            all_wf(snapshot@),
            forall|j: int|
                0 <= j < snapshot@.len() ==> bounded(#[trigger] snapshot@[j].acc@, ACC_BOUND / 8),
            snapshot@.len() <= MAX_FLOCK,
            0 <= width <= COORD_BOUND,
            0 <= height <= COORD_BOUND,
            forall|j: int|
                0 <= j < i ==> #[trigger] boids@[j] == updated(
                    flocked(
                        snapshot@[j],
                        snapshot@,
                        alignment_mult as int,
                        cohesion_mult as int,
                        separation_mult as int,
                    ),
                    dt_us as int,
                    width as int,
                    height as int,
                ),
            forall|j: int| 0 <= j < i ==> (#[trigger] boids@[j]).wf() && boids@[j].acc@ == (0int, 0int),
            forall|j: int| i <= j < boids@.len() ==> #[trigger] boids@[j] == snapshot@[j],
        decreases boids@.len() - i,
    {
        let mut b = boids[i];
        assert(snapshot@[i as int].wf());
        b.flock(snapshot.as_slice(), alignment_mult, cohesion_mult, separation_mult);
        b.update(dt_us, width, height);
        boids.set(i, b);
        i = i + 1;
    }
}

/// A copy of the flock as it stands.
fn snapshot_of(boids: &Vec<Boid>) -> (r: Vec<Boid>)
    ensures
        r@ == boids@,
{
    let mut r: Vec<Boid> = Vec::new();
    let mut i: usize = 0;
    while i < boids.len()
        invariant
            i <= boids@.len(),
            r@ == boids@.subrange(0, i as int),
        decreases boids@.len() - i,
    {
        r.push(boids[i]);
        i = i + 1;
    }
    assert(boids@.subrange(0, boids@.len() as int) =~= boids@);
    r
}

} // verus!
