use boids::vec2::Vec2;

#[test]
fn length_rounds_up() {
    assert_eq!(Vec2::new(3, 4).length(), 5);
    assert_eq!(Vec2::new(1, 1).length(), 2);
    assert_eq!(Vec2::new(0, 0).length(), 0);
    assert_eq!(Vec2::new(-3, -4).length_sq(), 25);
    assert_eq!(Vec2::new(i64::MIN, i64::MIN).length_sq(), 1u128 << 127);
    assert_eq!(Vec2::new(i64::MIN, i64::MIN).length(), 13_043_817_825_332_782_213);
}

#[test]
fn with_length_rescales_along_the_direction() {
    assert_eq!(Vec2::new(3, 4).with_length(10), Vec2::new(6, 8));
    assert_eq!(Vec2::new(-3, 4).with_length(500), Vec2::new(-300, 400));
    assert_eq!(Vec2::new(1, 1).with_length(100), Vec2::new(70, 70));
    assert_eq!(Vec2::new(1, -2).with_length(1000), Vec2::new(447, -894));
    assert_eq!(Vec2::new(200_000, 0).with_length(500_000), Vec2::new(500_000, 0));
}

#[test]
fn with_length_keeps_zero() {
    assert_eq!(Vec2::new(0, 0).with_length(500_000), Vec2::new(0, 0));
    assert_eq!(Vec2::new(0, 0).with_length(0), Vec2::new(0, 0));
}

#[test]
fn limit_shortens_long_vectors_only() {
    let mut v = Vec2::new(3_000, 4_000);
    v.limit(1_000);
    assert_eq!(v, Vec2::new(600, 800));
    let mut w = Vec2::new(30, 40);
    w.limit(1_000);
    assert_eq!(w, Vec2::new(30, 40));
    let mut e = Vec2::new(600, 800);
    e.limit(1_000);
    assert_eq!(e, Vec2::new(600, 800));
}

#[test]
fn limit_is_idempotent() {
    let mut v = Vec2::new(-7_777, 12_345);
    v.limit(999);
    assert_eq!(v, Vec2::new(-532, 845));
    let once = v;
    v.limit(999);
    assert_eq!(v, once);
    assert!(once.length_sq() <= 999 * 999);
}

#[test]
fn wrap_around_teleports_across_edges() {
    let mut a = Vec2::new(801, 5);
    a.wrap_around(800, 600);
    assert_eq!(a, Vec2::new(0, 5));
    let mut b = Vec2::new(-1, 601);
    b.wrap_around(800, 600);
    assert_eq!(b, Vec2::new(800, 0));
    let mut c = Vec2::new(10, -20);
    c.wrap_around(800, 600);
    assert_eq!(c, Vec2::new(10, 600));
    let mut d = Vec2::new(800, 600);
    d.wrap_around(800, 600);
    assert_eq!(d, Vec2::new(800, 600));
}

#[test]
fn random_stays_in_range_and_varies() {
    let mut varied = false;
    for _ in 0..100 {
        let v = Vec2::random(-5, 5);
        assert!(-5 <= v.x && v.x <= 5);
        assert!(-5 <= v.y && v.y <= 5);
        if v.x != -5 || v.y != -5 {
            varied = true;
        }
    }
    assert!(varied);
    assert_eq!(Vec2::random(3, 3), Vec2::new(3, 3));
}

#[test]
fn random_in_screen_stays_on_screen() {
    let mut varied = false;
    for _ in 0..100 {
        let v = Vec2::random_in_screen(800_000, 600_000);
        assert!(0 <= v.x && v.x <= 800_000);
        assert!(0 <= v.y && v.y <= 600_000);
        if v.x != 0 || v.y != 0 {
            varied = true;
        }
    }
    assert!(varied);
}

#[test]
fn with_length_reaches_the_length_up_to_rounding() {
    let l: i64 = 500_000;
    for (x, y) in [(1, 1), (1, -2), (-7, 3), (123_456_789, -987), (0, -5), (i64::MAX, i64::MIN)] {
        let r = Vec2::new(x, y).with_length(l);
        let n = r.length_sq();
        assert!(n <= (l as u128) * (l as u128));
        assert!(n >= ((l - 3) as u128) * ((l - 3) as u128));
    }
}
