use colliding_particles::mover::{thread_move_particles, DRAW_SPAN};
use colliding_particles::particle::{Particle, UNIT};

#[test]
fn new_keeps_coordinates() {
    let p = Particle::new(-3, 17);
    assert_eq!(p.x, -3);
    assert_eq!(p.y, 17);
    assert_eq!(p, Particle { x: -3, y: 17 });
}

#[test]
fn collide_counts_both_axes() {
    let a = Particle::new(0, 0);
    let b = Particle::new(3, 4);
    assert!(a.collide(&b, 5));
    assert!(!a.collide(&b, 4));
    assert!(a.collide(&b, 6));
}

#[test]
fn collide_is_symmetric() {
    let points = [
        Particle::new(0, 0),
        Particle::new(3, 4),
        Particle::new(-7, 2),
        Particle::new(1_000_000, -1_000_000),
        Particle::new(i64::MAX, i64::MIN),
    ];
    let thresholds = [0u64, 1, 5, 9, 1_500_000, u64::MAX];
    for a in points.iter() {
        for b in points.iter() {
            for t in thresholds.iter() {
                assert_eq!(a.collide(b, *t), b.collide(a, *t));
            }
        }
    }
}

#[test]
fn collide_threshold_is_inclusive() {
    let a = Particle::new(10, 10);
    let at = Particle::new(10 + UNIT, 10);
    let beyond = Particle::new(10 + UNIT + 1, 10);
    assert!(a.collide(&at, UNIT as u64));
    assert!(!a.collide(&beyond, UNIT as u64));
    assert!(a.collide(&beyond, UNIT as u64 + 1));
}

#[test]
fn collide_with_itself_at_threshold_zero() {
    let a = Particle::new(42, -42);
    assert!(a.collide(&a, 0));
    assert!(!a.collide(&Particle::new(43, -42), 0));
}

#[test]
fn collide_at_the_ends_of_the_coordinate_range() {
    let low = Particle::new(i64::MIN, 0);
    let high = Particle::new(i64::MAX, 0);
    assert!(low.collide(&high, u64::MAX));
    assert!(!low.collide(&high, u64::MAX - 1));
    let corner_a = Particle::new(i64::MIN, i64::MIN);
    let corner_b = Particle::new(i64::MAX, i64::MAX);
    assert!(!corner_a.collide(&corner_b, u64::MAX));
}

#[test]
fn try_step_applies_the_displacement() {
    let p = Particle::new(5, 5);
    let next = p.try_step(UNIT as u64 + 3, UNIT as u64 - 2, 10);
    assert_eq!(next, Some(Particle::new(8, 3)));
}

#[test]
fn try_step_zero_draw_is_one_unit_back() {
    let p = Particle::new(UNIT, 2 * UNIT);
    let next = p.try_step(0, DRAW_SPAN - 1, 10 * UNIT);
    assert_eq!(next, Some(Particle::new(0, 3 * UNIT - 1)));
}

#[test]
fn try_step_accepts_the_borders() {
    let p = Particle::new(1, 9);
    assert_eq!(p.try_step(UNIT as u64 - 1, UNIT as u64 + 1, 10), Some(Particle::new(0, 10)));
}

#[test]
fn try_step_rejects_what_leaves_the_enclosure() {
    let p = Particle::new(1, 9);
    assert_eq!(p.try_step(UNIT as u64 - 2, UNIT as u64, 10), None);
    assert_eq!(p.try_step(UNIT as u64, UNIT as u64 + 2, 10), None);
    assert_eq!(p.try_step(UNIT as u64, UNIT as u64, 8), None);
    assert_eq!(p.try_step(UNIT as u64, UNIT as u64, -1), None);
}

#[test]
fn try_step_takes_any_draw() {
    let p = Particle::new(i64::MAX, i64::MIN);
    assert_eq!(p.try_step(u64::MAX, u64::MAX, i64::MAX), None);
    let q = Particle::new(i64::MIN, i64::MIN);
    let shift = (1u64 << 63) + UNIT as u64;
    assert_eq!(q.try_step(shift, shift + 7, 7), Some(Particle::new(0, 7)));
}

#[test]
fn draw_span_is_two_units() {
    assert_eq!(DRAW_SPAN, 2 * UNIT as u64);
}

#[test]
fn moved_particles_stay_inside() {
    let enclosure = 3 * UNIT;
    let mut list = vec![
        Particle::new(0, 0),
        Particle::new(enclosure, enclosure),
        Particle::new(0, enclosure),
        Particle::new(UNIT, 2 * UNIT),
        Particle::new(enclosure / 2, 0),
    ];
    for _ in 0..200 {
        thread_move_particles(&mut list, enclosure);
        for p in list.iter() {
            assert!(0 <= p.x && p.x <= enclosure);
            assert!(0 <= p.y && p.y <= enclosure);
        }
    }
}

#[test]
fn moved_particles_take_bounded_steps() {
    let enclosure = 10 * UNIT;
    let mut list = vec![Particle::new(5 * UNIT, 5 * UNIT); 16];
    for _ in 0..100 {
        let before = list.clone();
        thread_move_particles(&mut list, enclosure);
        assert_eq!(list.len(), before.len());
        for (old, new) in before.iter().zip(list.iter()) {
            assert!(-UNIT <= new.x - old.x && new.x - old.x < UNIT);
            assert!(-UNIT <= new.y - old.y && new.y - old.y < UNIT);
        }
    }
}

#[test]
fn moved_particles_do_move() {
    let enclosure = 10 * UNIT;
    let start = Particle::new(5 * UNIT, 5 * UNIT);
    let mut list = vec![start; 8];
    thread_move_particles(&mut list, enclosure);
    assert!(list.iter().any(|p| *p != start));
}

#[test]
fn move_of_an_empty_chunk() {
    let mut list: Vec<Particle> = Vec::new();
    thread_move_particles(&mut list, UNIT);
    assert!(list.is_empty());
}
