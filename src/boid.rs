use vstd::prelude::*;
use crate::vec2::{
    Vec2, norm_sq, ceil_sqrt, tdiv, with_length_of, limit_of, wrap_of, bounded,
    lemma_ceil_sqrt_exists, lemma_component_le, lemma_tdiv_bound, lemma_with_length_bound,
    lemma_length_positive, precision_factor, refined, tdiv_i128,
};

verus! {

/// Radius within which another boid counts as a neighbour: 100 pixels.
pub const NEIGHBOUR_RADIUS: i64 = 100_000;

/// Least distance used to weigh a repulsion: 0.01 pixel.
pub const SEPARATION_FLOOR: i64 = 10;

/// Length given to each neighbour's repulsion before they are summed.
pub const REPULSION_SCALE: i64 = 1_000_000;

/// Frame times are counted in microseconds.
pub const MICROS_PER_SECOND: i64 = 1_000_000;

/// Rule weights are counted in thousandths.
pub const WEIGHT_ONE: i64 = 1000;

/// Bound on each component of a position or a velocity, and on the top speed (2^40).
pub const COORD_BOUND: i64 = 1_099_511_627_776;

/// Bound on each component of the acceleration (2^49).
pub const ACC_BOUND: i64 = 562_949_953_421_312;

/// Most boids that one query may look at (2^20).
pub const MAX_FLOCK: usize = 1_048_576;

/// Colour of a boid, one byte per channel.
#[derive(Clone, Copy, Debug, PartialEq, Eq, Structural)]
pub struct Color {
    pub r: u8,
    pub g: u8,
    pub b: u8,
    pub a: u8,
}

/// One agent of the flock. `pos` is in thousandths of a pixel, `vel` and
/// `max_speed` in thousandths of a pixel per second, `acc` in thousandths of a
/// pixel per second squared; `size` is the drawn radius in thousandths of a pixel.
#[derive(Clone, Copy, Debug, PartialEq, Eq, Structural)]
pub struct Boid {
    pub pos: Vec2,
    pub vel: Vec2,
    pub acc: Vec2,
    pub max_speed: i64,
    pub size: i64,
    pub color: Color,
}

/// Componentwise sum.
pub open spec fn plus(a: (int, int), b: (int, int)) -> (int, int) {
    (a.0 + b.0, a.1 + b.1)
}

/// Componentwise difference.
pub open spec fn minus(a: (int, int), b: (int, int)) -> (int, int) {
    (a.0 - b.0, a.1 - b.1)
}

/// Squared distance between two points.
pub open spec fn dist_sq(p: (int, int), q: (int, int)) -> int {
    norm_sq(minus(p, q))
}

/// `q` is a neighbour of `p`: strictly closer than `r`, and not at `p` itself.
pub open spec fn is_neighbour(p: (int, int), q: (int, int), r: int) -> bool {
    0 < dist_sq(p, q) < r * r
}

/// The boids of `s` that are neighbours of the point `p`, in their order in `s`.
pub open spec fn neighbours_of(p: (int, int), s: Seq<Boid>, r: int) -> Seq<Boid>
    decreases s.len(),
{
    if s.len() == 0 {
        Seq::empty()
    } else {
        let rest = neighbours_of(p, s.drop_last(), r);
        if is_neighbour(p, s.last().pos@, r) {
            rest.push(s.last())
        } else {
            rest
        }
    }
}

/// Sum of the velocities of `s`.
pub open spec fn sum_vel(s: Seq<Boid>) -> (int, int)
    decreases s.len(),
{
    if s.len() == 0 {
        (0, 0)
    } else {
        plus(sum_vel(s.drop_last()), s.last().vel@)
    }
}

/// Sum of the offsets from `p` to the boids of `s`.
pub open spec fn sum_offset(p: (int, int), s: Seq<Boid>) -> (int, int)
    decreases s.len(),
{
    if s.len() == 0 {
        (0, 0)
    } else {
        plus(sum_offset(p, s.drop_last()), minus(s.last().pos@, p))
    }
}

/// The push of `q` on `p`: the direction from `q` to `p` at length
/// `REPULSION_SCALE`, divided by their distance (floored at `SEPARATION_FLOOR`)
/// rather than by the unit length.
pub open spec fn repulsion(p: (int, int), q: (int, int)) -> (int, int) {
    let d = ceil_sqrt(dist_sq(p, q));
    let d = if d > SEPARATION_FLOOR { d } else { SEPARATION_FLOOR as int };
    (tdiv((p.0 - q.0) * REPULSION_SCALE, d), tdiv((p.1 - q.1) * REPULSION_SCALE, d))
}

/// Sum of the pushes of the boids of `s` on the point `p`.
pub open spec fn sum_repulsion(p: (int, int), s: Seq<Boid>) -> (int, int)
    decreases s.len(),
{
    if s.len() == 0 {
        (0, 0)
    } else {
        plus(sum_repulsion(p, s.drop_last()), repulsion(p, s.last().pos@))
    }
}

/// The steering force toward heading along `dir` at top speed.
/// A sum points the same way as the average it stands for, so it is rescaled directly.
pub open spec fn steer(b: Boid, dir: (int, int)) -> (int, int) {
    minus(with_length_of(dir, b.max_speed as int), b.vel@)
}

/// Steering toward the neighbours' average velocity; zero without neighbours.
pub open spec fn alignment_of(b: Boid, ns: Seq<Boid>) -> (int, int) {
    if ns.len() == 0 {
        (0, 0)
    } else {
        steer(b, sum_vel(ns))
    }
}

/// Steering toward the neighbours' average position; zero without neighbours.
pub open spec fn cohesion_of(b: Boid, ns: Seq<Boid>) -> (int, int) {
    if ns.len() == 0 {
        (0, 0)
    } else {
        steer(b, sum_offset(b.pos@, ns))
    }
}

/// Steering away from the neighbours, the nearer ones pushing harder; zero
/// without neighbours.
pub open spec fn separation_of(b: Boid, ns: Seq<Boid>) -> (int, int) {
    if ns.len() == 0 {
        (0, 0)
    } else {
        steer(b, sum_repulsion(b.pos@, ns))
    }
}

/// `v` times a weight counted in thousandths, rounded toward zero.
pub open spec fn weighted(v: (int, int), w: int) -> (int, int) {
    (tdiv(v.0 * w, WEIGHT_ONE as int), tdiv(v.1 * w, WEIGHT_ONE as int))
}

/// The sum of the three weighted rules for `b` among the boids `s`.
pub open spec fn flock_force(b: Boid, s: Seq<Boid>, wa: int, wc: int, ws: int) -> (int, int) {
    let ns = neighbours_of(b.pos@, s, NEIGHBOUR_RADIUS as int);
    plus(
        plus(weighted(alignment_of(b, ns), wa), weighted(cohesion_of(b, ns), wc)),
        weighted(separation_of(b, ns), ws),
    )
}

/// `v` integrated over `dt` microseconds, rounded toward zero.
pub open spec fn over_time(v: (int, int), dt: int) -> (int, int) {
    (tdiv(v.0 * dt, MICROS_PER_SECOND as int), tdiv(v.1 * dt, MICROS_PER_SECOND as int))
}

/// The fixed-point vector holding `v`, for values that fit.
pub open spec fn vec_of(v: (int, int)) -> Vec2 {
    Vec2 { x: v.0 as i64, y: v.1 as i64 }
}

/// `b` after `flock` among the boids `s`.
pub open spec fn flocked(b: Boid, s: Seq<Boid>, wa: int, wc: int, ws: int) -> Boid {
    Boid { acc: vec_of(plus(b.acc@, flock_force(b, s, wa, wc, ws))), ..b }
}

/// The velocity of `b` after `update` over `dt` microseconds.
pub open spec fn updated_vel(b: Boid, dt: int) -> (int, int) {
    limit_of(plus(b.vel@, over_time(b.acc@, dt)), b.max_speed as int)
}

/// `b` after `update` over `dt` microseconds on a screen of `w` by `h`.
pub open spec fn updated(b: Boid, dt: int, w: int, h: int) -> Boid {
    let vel = updated_vel(b, dt);
    Boid {
        pos: vec_of(wrap_of(plus(b.pos@, over_time(vel, dt)), w, h)),
        vel: vec_of(vel),
        acc: Vec2 { x: 0, y: 0 },
        ..b
    }
}

/// Every boid of `s` is well formed.
pub open spec fn all_wf(s: Seq<Boid>) -> bool {
    forall|i: int| 0 <= i < s.len() ==> (#[trigger] s[i]).wf()
}

impl Boid {
    /// Positions, velocities and the top speed stay within `COORD_BOUND`, the
    /// acceleration within `ACC_BOUND`, and the top speed is not negative.
    pub open spec fn wf(&self) -> bool {
        &&& bounded(self.pos@, COORD_BOUND as int)
        &&& bounded(self.vel@, COORD_BOUND as int)
        &&& bounded(self.acc@, ACC_BOUND as int)
        &&& 0 <= self.max_speed <= COORD_BOUND
    }

    /// The boids of `boids` strictly within `radius` of this one, leaving out
    /// any at exactly its position (itself among them), in their order.
    pub fn neighbours(&self, boids: &[Boid], radius: i64) -> (r: Vec<Boid>)
        requires
            self.wf(),
            all_wf(boids@),
        ensures
            r@ == neighbours_of(self.pos@, boids@, radius as int),
            r@.len() <= boids@.len(),
    {
        let mut out: Vec<Boid> = Vec::new();
        assert(0 <= radius * radius <= 0x4000_0000_0000_0000_0000_0000_0000_0000) by (nonlinear_arith)
            requires
                -0x8000_0000_0000_0000 <= radius <= 0x7FFF_FFFF_FFFF_FFFF,
        ;
        let rr = radius as i128 * radius as i128;
        let mut i: usize = 0;
        while i < boids.len()
            invariant
                i <= boids@.len(),
                self.wf(),
                all_wf(boids@),
                rr == radius * radius,
                out@ == neighbours_of(self.pos@, boids@.subrange(0, i as int), radius as int),
                out@.len() <= i,
            decreases boids@.len() - i,
        {
            let b = boids[i];
            assert(b.wf());
            let d = dist_sq_i128(self.pos, b.pos);
            assert(boids@.subrange(0, i + 1).drop_last() =~= boids@.subrange(0, i as int));
            if 0 < d && d < rr {
                out.push(b);
            }
            i = i + 1;
        }
        assert(boids@.subrange(0, boids@.len() as int) =~= boids@);
        out
    }

    /// Steering that turns this boid toward its neighbours' average velocity.
    pub fn alignment(&self, neighbours: &[Boid]) -> (r: Vec2)
        requires
            self.wf(),
            all_wf(neighbours@),
            neighbours@.len() <= MAX_FLOCK,
        ensures
            r@ == alignment_of(*self, neighbours@),
            bounded(r@, 2 * COORD_BOUND),
            neighbours@.len() == 0 ==> r@ == (0int, 0int),
    {
        if neighbours.len() == 0 {
            return Vec2::zero();
        }
        let mut sx: i64 = 0;
        let mut sy: i64 = 0;
        let mut i: usize = 0;
        while i < neighbours.len()
            invariant
                i <= neighbours@.len() <= MAX_FLOCK,
                all_wf(neighbours@),
                (sx as int, sy as int) == sum_vel(neighbours@.subrange(0, i as int)),
                bounded((sx as int, sy as int), i * COORD_BOUND),
            decreases neighbours@.len() - i,
        {
            let b = neighbours[i];
            assert(b.wf());
            assert(neighbours@.subrange(0, i + 1).drop_last() =~= neighbours@.subrange(0, i as int));
            sx = sx + b.vel.x;
            sy = sy + b.vel.y;
            i = i + 1;
        }
        assert(neighbours@.subrange(0, neighbours@.len() as int) =~= neighbours@);
        self.steer(Vec2 { x: sx, y: sy })
    }

    /// Steering that turns this boid toward its neighbours' average position.
    pub fn coherence(&self, neighbours: &[Boid]) -> (r: Vec2)
        requires
            self.wf(),
            all_wf(neighbours@),
            neighbours@.len() <= MAX_FLOCK,
        ensures
            r@ == cohesion_of(*self, neighbours@),
            bounded(r@, 2 * COORD_BOUND),
            neighbours@.len() == 0 ==> r@ == (0int, 0int),
    {
        if neighbours.len() == 0 {
            return Vec2::zero();
        }
        let mut sx: i64 = 0;
        let mut sy: i64 = 0;
        let mut i: usize = 0;
        while i < neighbours.len()
            invariant
                i <= neighbours@.len() <= MAX_FLOCK,
                self.wf(),
                all_wf(neighbours@),
                (sx as int, sy as int) == sum_offset(self.pos@, neighbours@.subrange(0, i as int)),
                bounded((sx as int, sy as int), i * (2 * COORD_BOUND)),
            decreases neighbours@.len() - i,
        {
            let b = neighbours[i];
            assert(b.wf());
            assert(neighbours@.subrange(0, i + 1).drop_last() =~= neighbours@.subrange(0, i as int));
            assert(i * (2 * COORD_BOUND) <= MAX_FLOCK * (2 * COORD_BOUND)) by (nonlinear_arith)
                requires
                    i < MAX_FLOCK,
            ;
            assert((i + 1) * (2 * COORD_BOUND) == i * (2 * COORD_BOUND) + 2 * COORD_BOUND)
                by (nonlinear_arith);
            sx = sx + (b.pos.x - self.pos.x);
            sy = sy + (b.pos.y - self.pos.y);
            i = i + 1;
        }
        assert(neighbours@.subrange(0, neighbours@.len() as int) =~= neighbours@);
        self.steer(Vec2 { x: sx, y: sy })
    }

    /// Steering that turns this boid away from its neighbours, the nearer ones
    /// pushing harder.
    pub fn separation(&self, neighbours: &[Boid]) -> (r: Vec2)
        requires
            self.wf(),
            all_wf(neighbours@),
            neighbours@.len() <= MAX_FLOCK,
        ensures
            r@ == separation_of(*self, neighbours@),
            bounded(r@, 2 * COORD_BOUND),
            neighbours@.len() == 0 ==> r@ == (0int, 0int),
    {
        if neighbours.len() == 0 {
            return Vec2::zero();
        }
        let mut sx: i64 = 0;
        let mut sy: i64 = 0;
        let mut i: usize = 0;
        while i < neighbours.len()
            invariant
                i <= neighbours@.len() <= MAX_FLOCK,
                self.wf(),
                all_wf(neighbours@),
                (sx as int, sy as int) == sum_repulsion(self.pos@, neighbours@.subrange(0, i as int)),
                bounded((sx as int, sy as int), i * REPULSION_SCALE),
            decreases neighbours@.len() - i,
        {
            let b = neighbours[i];
            assert(b.wf());
            assert(neighbours@.subrange(0, i + 1).drop_last() =~= neighbours@.subrange(0, i as int));
            let p = repulsion_exec(self.pos, b.pos);
            sx = sx + p.x;
            sy = sy + p.y;
            i = i + 1;
        }
        assert(neighbours@.subrange(0, neighbours@.len() as int) =~= neighbours@);
        self.steer(Vec2 { x: sx, y: sy })
    }

    /// Top-speed heading along `dir`, less the current velocity.
    fn steer(&self, dir: Vec2) -> (r: Vec2)
        requires
            self.wf(),
        ensures
            r@ == steer(*self, dir@),
            bounded(r@, 2 * COORD_BOUND),
    {
        let d = dir.with_length(self.max_speed);
        proof {
            lemma_with_length_bound(dir@, self.max_speed as int);
        }
        Vec2 { x: d.x - self.vel.x, y: d.y - self.vel.y }
    }

    /// Adds to the acceleration the three rules over this boid's neighbours in
    /// `boids`, weighted by `alignment_mult`, `cohesion_mult` and
    /// `separation_mult` (each counted in thousandths).
    pub fn flock(&mut self, boids: &[Boid], alignment_mult: u16, cohesion_mult: u16, separation_mult: u16)
        requires
            old(self).wf(),
            bounded(old(self).acc@, ACC_BOUND / 8),
            all_wf(boids@),
            boids@.len() <= MAX_FLOCK,
        ensures
            final(self).acc@ == plus(
                old(self).acc@,
                flock_force(*old(self), boids@, alignment_mult as int, cohesion_mult as int, separation_mult as int),
            ),
            *final(self) == flocked(*old(self), boids@, alignment_mult as int, cohesion_mult as int, separation_mult as int),
            final(self).wf(),
    {
        let neighbours = self.neighbours(boids, NEIGHBOUR_RADIUS);
        proof {
            lemma_neighbours_wf(self.pos@, boids@, NEIGHBOUR_RADIUS as int);
        }
        let alignment = weigh(self.alignment(neighbours.as_slice()), alignment_mult);
        let cohesion = weigh(self.coherence(neighbours.as_slice()), cohesion_mult);
        let separation = weigh(self.separation(neighbours.as_slice()), separation_mult);
        self.acc = Vec2 {
            x: self.acc.x + alignment.x + cohesion.x + separation.x,
            y: self.acc.y + alignment.y + cohesion.y + separation.y,
        };
    }

    /// Advances the boid by `dt_us` microseconds on a screen of `width` by
    /// `height`: the velocity takes up the acceleration and is held to the top
    /// speed, the position moves by the new velocity and wraps across the
    /// edges, and the acceleration is cleared.
    pub fn update(&mut self, dt_us: u32, width: i64, height: i64)
        requires
            old(self).wf(),
            0 <= width <= COORD_BOUND,
            0 <= height <= COORD_BOUND,
        ensures
            final(self).vel@ == updated_vel(*old(self), dt_us as int),
            final(self).pos@ == wrap_of(plus(old(self).pos@, over_time(final(self).vel@, dt_us as int)), width as int, height as int),
            final(self).acc@ == (0int, 0int),
            *final(self) == updated(*old(self), dt_us as int, width as int, height as int),
            norm_sq(final(self).vel@) <= old(self).max_speed * old(self).max_speed,
            0 <= final(self).pos.x <= width,
            0 <= final(self).pos.y <= height,
            final(self).wf(),
    {
        let dv = over_time_exec(self.acc, dt_us, ACC_BOUND);
        let mut vel = Vec2 { x: self.vel.x + dv.x, y: self.vel.y + dv.y };
        vel.limit(self.max_speed);
        proof {
            lemma_component_le(vel.x as int, vel.y as int, self.max_speed as int);
            lemma_component_le(vel.y as int, vel.x as int, self.max_speed as int);
        }
        let dp = over_time_exec(vel, dt_us, COORD_BOUND);
        let mut pos = Vec2 { x: self.pos.x + dp.x, y: self.pos.y + dp.y };
        pos.wrap_around(width, height);
        self.vel = vel;
        self.pos = pos;
        self.acc = Vec2::zero();
    }
}

/// No boid is its own neighbour: every neighbour of a boid stands at another
/// position than the boid's own.
pub proof fn lemma_neighbours_exclude_self(a: Boid, s: Seq<Boid>, r: int)
    ensures
        !neighbours_of(a.pos@, s, r).contains(a),
        forall|i: int|
            0 <= i < neighbours_of(a.pos@, s, r).len() ==> (#[trigger] neighbours_of(a.pos@, s, r)[i]).pos
                != a.pos,
    decreases s.len(),
{
    if s.len() > 0 {
        lemma_neighbours_exclude_self(a, s.drop_last(), r);
        let rest = neighbours_of(a.pos@, s.drop_last(), r);
        if is_neighbour(a.pos@, s.last().pos@, r) {
            assert(s.last().pos != a.pos) by {
                if s.last().pos == a.pos {
                    lemma_dist_self(a.pos@);
                }
            }
            let ns = rest.push(s.last());
            assert forall|i: int| 0 <= i < ns.len() implies (#[trigger] ns[i]).pos != a.pos by {
                if i < rest.len() {
                    assert(ns[i] == rest[i]);
                }
            }
        }
    }
}

/// Without neighbours each of the three rules steers by exactly zero.
pub proof fn lemma_rules_zero_without_neighbours(b: Boid)
    ensures
        alignment_of(b, Seq::empty()) == (0int, 0int),
        cohesion_of(b, Seq::empty()) == (0int, 0int),
        separation_of(b, Seq::empty()) == (0int, 0int),
{
}

/// After an update the boid is on the screen `[0, w] x [0, h]`. Starting on the
/// screen, it stays strictly before the far edges unless its move ended below
/// zero (which wraps it onto the far edge) or exactly on the far edge.
pub proof fn lemma_update_on_screen(b: Boid, dt: int, w: int, h: int)
    requires
        w >= 0,
        h >= 0,
    ensures
        ({
            let p = wrap_of(plus(b.pos@, over_time(updated_vel(b, dt), dt)), w, h);
            0 <= p.0 <= w && 0 <= p.1 <= h
        }),
        ({
            let moved = plus(b.pos@, over_time(updated_vel(b, dt), dt));
            let p = wrap_of(moved, w, h);
            (0 <= b.pos.x < w && 0 <= b.pos.y < h && moved.0 >= 0 && moved.0 != w && moved.1 >= 0
                && moved.1 != h) ==> (0 <= p.0 < w && 0 <= p.1 < h)
        }),
{
}

/// Two boids alone within reach of each other, with the same velocity and top
/// speed, are pushed apart along opposite directions: their separation forces,
/// each plus the shared velocity, are exact opposites (with zero velocity the
/// forces themselves are).
pub proof fn lemma_separation_symmetric(a: Boid, b: Boid)
    requires
        a.vel == b.vel,
        a.max_speed == b.max_speed,
        a.max_speed >= 0,
        is_neighbour(a.pos@, b.pos@, NEIGHBOUR_RADIUS as int),
    ensures
        ({
            let pair = seq![a, b];
            let fa = separation_of(a, neighbours_of(a.pos@, pair, NEIGHBOUR_RADIUS as int));
            let fb = separation_of(b, neighbours_of(b.pos@, pair, NEIGHBOUR_RADIUS as int));
            plus(fa, a.vel@) == (-(fb.0 + b.vel.x), -(fb.1 + b.vel.y))
        }),
{
    let r = NEIGHBOUR_RADIUS as int;
    let pair = seq![a, b];
    assert(pair.drop_last() =~= seq![a]);
    assert(seq![a].drop_last() =~= Seq::<Boid>::empty());
    assert(neighbours_of(a.pos@, Seq::<Boid>::empty(), r) == Seq::<Boid>::empty());
    assert(neighbours_of(b.pos@, Seq::<Boid>::empty(), r) == Seq::<Boid>::empty());
    lemma_dist_self(a.pos@);
    lemma_dist_self(b.pos@);
    assert(seq![a].last() == a);
    assert(pair.last() == b);
    let d = minus(a.pos@, b.pos@);
    let e = minus(b.pos@, a.pos@);
    assert(e.0 * e.0 == d.0 * d.0 && e.1 * e.1 == d.1 * d.1) by (nonlinear_arith)
        requires
            e.0 == -d.0,
            e.1 == -d.1,
    ;
    assert(dist_sq(b.pos@, a.pos@) == dist_sq(a.pos@, b.pos@));
    assert(neighbours_of(a.pos@, seq![a], r) =~= Seq::<Boid>::empty());
    assert(neighbours_of(a.pos@, pair, r) =~= seq![b]);
    assert(neighbours_of(b.pos@, seq![a], r) =~= seq![a]);
    assert(neighbours_of(b.pos@, pair, r) =~= seq![a]);
    assert(seq![b].drop_last() =~= Seq::<Boid>::empty());
    let k = REPULSION_SCALE as int;
    lemma_tdiv_neg_product(d.0, k, {
        let n = ceil_sqrt(dist_sq(a.pos@, b.pos@));
        if n > SEPARATION_FLOOR { n } else { SEPARATION_FLOOR as int }
    });
    lemma_tdiv_neg_product(d.1, k, {
        let n = ceil_sqrt(dist_sq(a.pos@, b.pos@));
        if n > SEPARATION_FLOOR { n } else { SEPARATION_FLOOR as int }
    });
    let pa = repulsion(a.pos@, b.pos@);
    let pb = repulsion(b.pos@, a.pos@);
    assert(pb == (-pa.0, -pa.1));
    assert(seq![b].last() == b);
    assert(sum_repulsion(a.pos@, Seq::<Boid>::empty()) == (0int, 0int));
    assert(sum_repulsion(b.pos@, Seq::<Boid>::empty()) == (0int, 0int));
    assert(sum_repulsion(a.pos@, seq![b]) == pa);
    assert(sum_repulsion(b.pos@, seq![a]) == pb);
    lemma_with_length_neg(pa, a.max_speed as int);
}

/// A point is at distance zero from itself.
proof fn lemma_dist_self(p: (int, int))
    ensures
        dist_sq(p, p) == 0,
{
    assert(minus(p, p) == (0int, 0int));
    assert(norm_sq((0int, 0int)) == 0);
}

/// `tdiv((-a) * k, d)` is `-tdiv(a * k, d)`.
proof fn lemma_tdiv_neg_product(a: int, k: int, d: int)
    requires
        d > 0,
    ensures
        tdiv((-a) * k, d) == -tdiv(a * k, d),
{
    assert((-a) * k == -(a * k)) by (nonlinear_arith);
    lemma_tdiv_bound(a * k, d);
}

/// Rescaling the opposite vector gives the opposite result.
proof fn lemma_with_length_neg(v: (int, int), l: int)
    ensures
        with_length_of((-v.0, -v.1), l) == (-with_length_of(v, l).0, -with_length_of(v, l).1),
{
    let w = (-v.0, -v.1);
    lemma_neg_norm(v);
    if v != (0int, 0int) {
        let f = precision_factor(v);
        assert(precision_factor(w) == f);
        let u = refined(v);
        let uw = refined(w);
        assert(uw == (-u.0, -u.1)) by (nonlinear_arith)
            requires
                uw == (-v.0 * f, -v.1 * f),
                u == (v.0 * f, v.1 * f),
        ;
        assert(u != (0int, 0int)) by (nonlinear_arith)
            requires
                v.0 != 0 || v.1 != 0,
                f > 0,
                u.0 == v.0 * f,
                u.1 == v.1 * f,
        ;
        lemma_neg_norm(u);
        lemma_length_positive(u);
        let n = crate::vec2::length(u);
        lemma_tdiv_neg_product(u.0, l, n);
        lemma_tdiv_neg_product(u.1, l, n);
    }
}

/// The opposite vector has the same squared length.
proof fn lemma_neg_norm(v: (int, int))
    ensures
        norm_sq((-v.0, -v.1)) == norm_sq(v),
{
    assert((-v.0) * (-v.0) == v.0 * v.0 && (-v.1) * (-v.1) == v.1 * v.1) by (nonlinear_arith);
}

/// Every neighbour comes from the boids searched, so it is well formed when they all are.
pub proof fn lemma_neighbours_wf(p: (int, int), s: Seq<Boid>, r: int)
    requires
        all_wf(s),
    ensures
        all_wf(neighbours_of(p, s, r)),
        neighbours_of(p, s, r).len() <= s.len(),
    decreases s.len(),
{
    if s.len() > 0 {
        lemma_neighbours_wf(p, s.drop_last(), r);
        assert(s.last().wf());
    }
}

/// Squared distance between two points within `COORD_BOUND`.
fn dist_sq_i128(p: Vec2, q: Vec2) -> (r: i128)
    requires
        bounded(p@, COORD_BOUND as int),
        bounded(q@, COORD_BOUND as int),
    ensures
        r == dist_sq(p@, q@),
        0 <= r <= 8 * COORD_BOUND * COORD_BOUND,
{
    let dx = p.x as i128 - q.x as i128;
    let dy = p.y as i128 - q.y as i128;
    assert(0 <= dx * dx <= 4 * COORD_BOUND * COORD_BOUND) by (nonlinear_arith)
        requires
            -2 * COORD_BOUND <= dx <= 2 * COORD_BOUND,
    ;
    assert(0 <= dy * dy <= 4 * COORD_BOUND * COORD_BOUND) by (nonlinear_arith)
        requires
            -2 * COORD_BOUND <= dy <= 2 * COORD_BOUND,
    ;
    dx * dx + dy * dy
}

/// The push of the point `q` on the point `p`.
fn repulsion_exec(p: Vec2, q: Vec2) -> (r: Vec2)
    requires
        bounded(p@, COORD_BOUND as int),
        bounded(q@, COORD_BOUND as int),
    ensures
        r@ == repulsion(p@, q@),
        bounded(r@, REPULSION_SCALE as int),
{
    let n = dist_sq_i128(p, q);
    let diff = Vec2 { x: p.x - q.x, y: p.y - q.y };
    let root = diff.length();
    assert(diff@ == minus(p@, q@));
    let d: i128 = if root as i128 > SEPARATION_FLOOR as i128 { root as i128 } else { SEPARATION_FLOOR as i128 };
    let dx = p.x as i128 - q.x as i128;
    let dy = p.y as i128 - q.y as i128;
    proof {
        lemma_ceil_sqrt_exists(n as int);
        lemma_component_le(dx as int, dy as int, root as int);
        lemma_component_le(dy as int, dx as int, root as int);
        lemma_repulsion_component(dx as int, d as int);
        lemma_repulsion_component(dy as int, d as int);
    }
    let rx = tdiv_i128(dx * REPULSION_SCALE as i128, d);
    let ry = tdiv_i128(dy * REPULSION_SCALE as i128, d);
    Vec2 { x: rx as i64, y: ry as i64 }
}

/// One component of a push stays within `REPULSION_SCALE`, and its product
/// fits in an `i128`.
proof fn lemma_repulsion_component(a: int, d: int)
    requires
        d > 0,
        -d <= a <= d,
        -4 * COORD_BOUND <= a <= 4 * COORD_BOUND,
    ensures
        -REPULSION_SCALE <= tdiv(a * REPULSION_SCALE, d) <= REPULSION_SCALE,
        -0x1_0000_0000_0000_0000_0000 <= a * REPULSION_SCALE <= 0x1_0000_0000_0000_0000_0000,
{
    let k = REPULSION_SCALE as int;
    lemma_tdiv_bound(a * k, d);
    let q = tdiv(a * k, d);
    let aq = if a * k >= 0 { q } else { -q };
    let aa = if a * k >= 0 { a * k } else { -(a * k) };
    assert(aa <= d * k) by (nonlinear_arith)
        requires
            -d <= a <= d,
            k > 0,
            aa == (if a * k >= 0 { a * k } else { -(a * k) }),
    ;
    assert(aq <= k) by (nonlinear_arith)
        requires
            aq * d <= aa,
            aa <= d * k,
            d > 0,
    ;
    assert(-0x1_0000_0000_0000_0000_0000 <= a * k <= 0x1_0000_0000_0000_0000_0000) by (nonlinear_arith)
        requires
            -4 * COORD_BOUND <= a <= 4 * COORD_BOUND,
            k == REPULSION_SCALE,
    ;
}

/// `v` weighted by `w` thousandths.
fn weigh(v: Vec2, w: u16) -> (r: Vec2)
    requires
        bounded(v@, 2 * COORD_BOUND),
    ensures
        r@ == weighted(v@, w as int),
        bounded(r@, 66 * 2 * COORD_BOUND),
{
    proof {
        lemma_weigh_component(v.x as int, w as int);
        lemma_weigh_component(v.y as int, w as int);
    }
    let x = tdiv_i128(v.x as i128 * w as i128, WEIGHT_ONE as i128);
    let y = tdiv_i128(v.y as i128 * w as i128, WEIGHT_ONE as i128);
    Vec2 { x: x as i64, y: y as i64 }
}

/// A weighted component stays within 66 times its bound, and its product fits
/// in an `i128`.
proof fn lemma_weigh_component(a: int, w: int)
    requires
        -2 * COORD_BOUND <= a <= 2 * COORD_BOUND,
        0 <= w <= 65535,
    ensures
        -66 * 2 * COORD_BOUND <= tdiv(a * w, WEIGHT_ONE as int) <= 66 * 2 * COORD_BOUND,
        -0x1_0000_0000_0000_0000_0000 <= a * w <= 0x1_0000_0000_0000_0000_0000,
{
    let c = 2 * COORD_BOUND;
    lemma_tdiv_bound(a * w, WEIGHT_ONE as int);
    let q = tdiv(a * w, WEIGHT_ONE as int);
    let aq = if a * w >= 0 { q } else { -q };
    let aa = if a * w >= 0 { a * w } else { -(a * w) };
    assert(aa <= c * 65535) by (nonlinear_arith)
        requires
            -c <= a <= c,
            0 <= w <= 65535,
            aa == (if a * w >= 0 { a * w } else { -(a * w) }),
    ;
    assert(aq <= 66 * c) by (nonlinear_arith)
        requires
            aq * 1000 <= aa,
            aa <= c * 65535,
            c > 0,
    ;
    assert(-0x1_0000_0000_0000_0000_0000 <= a * w <= 0x1_0000_0000_0000_0000_0000) by (nonlinear_arith)
        requires
            -c <= a <= c,
            0 <= w <= 65535,
            c == 2 * COORD_BOUND,
    ;
}

/// `v` integrated over `dt` microseconds.
fn over_time_exec(v: Vec2, dt: u32, b: i64) -> (r: Vec2)
    requires
        0 < b <= ACC_BOUND,
        bounded(v@, b as int),
    ensures
        r@ == over_time(v@, dt as int),
        bounded(r@, b * 4295),
{
    proof {
        lemma_over_time_component(v.x as int, dt as int, b as int);
        lemma_over_time_component(v.y as int, dt as int, b as int);
    }
    let x = tdiv_i128(v.x as i128 * dt as i128, MICROS_PER_SECOND as i128);
    let y = tdiv_i128(v.y as i128 * dt as i128, MICROS_PER_SECOND as i128);
    Vec2 { x: x as i64, y: y as i64 }
}

/// A component integrated over at most `u32::MAX` microseconds stays within
/// 4295 times its bound, and its product fits in an `i128`.
proof fn lemma_over_time_component(a: int, dt: int, b: int)
    requires
        0 < b <= ACC_BOUND,
        -b <= a <= b,
        0 <= dt <= 0xFFFF_FFFF,
    ensures
        -b * 4295 <= tdiv(a * dt, MICROS_PER_SECOND as int) <= b * 4295,
        -0x1_0000_0000_0000_0000_0000_0000 <= a * dt <= 0x1_0000_0000_0000_0000_0000_0000,
{
    lemma_tdiv_bound(a * dt, MICROS_PER_SECOND as int);
    let q = tdiv(a * dt, MICROS_PER_SECOND as int);
    let aq = if a * dt >= 0 { q } else { -q };
    let aa = if a * dt >= 0 { a * dt } else { -(a * dt) };
    assert(aa <= b * 0xFFFF_FFFF) by (nonlinear_arith)
        requires
            -b <= a <= b,
            0 <= dt <= 0xFFFF_FFFF,
            aa == (if a * dt >= 0 { a * dt } else { -(a * dt) }),
    ;
    assert(aq <= b * 4295) by (nonlinear_arith)
        requires
            aq * 1_000_000 <= aa,
            aa <= b * 0xFFFF_FFFF,
            b > 0,
    ;
    assert(-0x1_0000_0000_0000_0000_0000_0000 <= a * dt <= 0x1_0000_0000_0000_0000_0000_0000)
        by (nonlinear_arith)
        requires
            -b <= a <= b,
            0 < b <= ACC_BOUND,
            0 <= dt <= 0xFFFF_FFFF,
    ;
}

} // verus!
