use colliding_particles::mover::thread_move_particles;
use colliding_particles::particle::{Particle, UNIT};
use colliding_particles::system::{ParticleSystem, NUM_OF_THREADS};

#[test]
fn new_system_has_the_asked_particles() {
    let system = ParticleSystem::new(100, 10 * UNIT, 10 * UNIT);
    assert_eq!(system.particles().len(), 100);
    assert_eq!(system.collision_count(), 0);
}

#[test]
fn new_system_lies_in_the_box() {
    let system = ParticleSystem::new(500, 3 * UNIT, 7);
    for p in system.particles() {
        assert!(0 <= p.x && p.x < 3 * UNIT);
        assert!(0 <= p.y && p.y < 7);
    }
}

#[test]
fn new_system_in_the_smallest_box() {
    let system = ParticleSystem::new(20, 1, 1);
    for p in system.particles() {
        assert_eq!(*p, Particle::new(0, 0));
    }
}

#[test]
fn new_system_is_spread_out() {
    let system = ParticleSystem::new(50, 10 * UNIT, 10 * UNIT);
    let first = system.particles()[0];
    assert!(system.particles().iter().any(|p| *p != first));
}

#[test]
fn with_particles_keeps_them_in_order() {
    let list = vec![Particle::new(1, 2), Particle::new(3, 4), Particle::new(5, 6)];
    let system = ParticleSystem::with_particles(list.clone());
    assert_eq!(system.particles(), &list[..]);
    assert_eq!(system.collision_count(), 0);
}

#[test]
fn worker_count_is_four() {
    assert_eq!(NUM_OF_THREADS, 4);
}

#[test]
fn close_pair_in_one_chunk_is_counted() {
    let list = vec![Particle::new(0, 0), Particle::new(UNIT / 20, 0)];
    let mut system = ParticleSystem::with_particles(list);
    system.check_collisions((UNIT / 10) as u64, 2);
    assert_eq!(system.collision_count(), 1);
    system.check_collisions((UNIT / 10) as u64, NUM_OF_THREADS);
    assert_eq!(system.collision_count(), 2);
}

#[test]
fn pair_beyond_the_threshold_is_not_counted() {
    let list = vec![Particle::new(0, 0), Particle::new(UNIT / 20, 0)];
    let mut system = ParticleSystem::with_particles(list);
    system.check_collisions((UNIT / 25) as u64, 2);
    assert_eq!(system.collision_count(), 0);
}

#[test]
fn pair_across_a_chunk_border_is_not_counted() {
    let list = vec![
        Particle::new(0, 0),
        Particle::new(2 * UNIT, 0),
        Particle::new(4 * UNIT, 0),
        Particle::new(6 * UNIT, 6 * UNIT),
        Particle::new(6 * UNIT, 6 * UNIT),
        Particle::new(8 * UNIT, 0),
    ];
    let mut system = ParticleSystem::with_particles(list.clone());
    system.check_collisions((UNIT / 10) as u64, 4);
    assert_eq!(system.collision_count(), 0);

    let mut wider = ParticleSystem::with_particles(list);
    wider.check_collisions((UNIT / 10) as u64, 5);
    assert_eq!(wider.collision_count(), 1);
}

#[test]
fn chunks_of_one_never_collide() {
    let mut system = ParticleSystem::with_particles(vec![Particle::new(1, 1); 6]);
    system.check_collisions(u64::MAX, 1);
    assert_eq!(system.collision_count(), 0);
}

#[test]
fn coincident_particles_count_per_chunk() {
    let mut system = ParticleSystem::with_particles(vec![Particle::new(1, 1); 10]);
    system.check_collisions(0, 4);
    assert_eq!(system.collision_count(), 6 + 6 + 1);
}

#[test]
fn detecting_twice_doubles_the_count() {
    let mut system = ParticleSystem::with_particles(vec![Particle::new(9, 9); 3]);
    system.check_collisions(0, 4);
    assert_eq!(system.collision_count(), 3);
    system.check_collisions(0, 4);
    assert_eq!(system.collision_count(), 6);
}

#[test]
fn the_counter_never_decreases() {
    let mut system = ParticleSystem::new(40, UNIT, UNIT);
    let mut last = system.collision_count();
    for _ in 0..50 {
        system.move_particles(UNIT, 4);
        assert_eq!(system.collision_count(), last);
        system.check_collisions((UNIT / 2) as u64, 4);
        assert!(system.collision_count() >= last);
        last = system.collision_count();
    }
}

#[test]
fn detection_leaves_the_particles_alone() {
    let list = vec![Particle::new(1, 2), Particle::new(1, 3), Particle::new(50, 60)];
    let mut system = ParticleSystem::with_particles(list.clone());
    system.check_collisions(1, 4);
    assert_eq!(system.particles(), &list[..]);
    assert_eq!(system.collision_count(), 1);
}

#[test]
fn moving_keeps_the_system_inside() {
    let enclosure = 2 * UNIT;
    let mut system = ParticleSystem::new(64, enclosure, enclosure);
    for _ in 0..100 {
        let before = system.particles().to_vec();
        system.move_particles(enclosure, NUM_OF_THREADS);
        assert_eq!(system.particles().len(), 64);
        assert_eq!(system.collision_count(), 0);
        for (old, new) in before.iter().zip(system.particles().iter()) {
            assert!(0 <= new.x && new.x <= enclosure);
            assert!(0 <= new.y && new.y <= enclosure);
            assert!(-UNIT <= new.x - old.x && new.x - old.x < UNIT);
            assert!(-UNIT <= new.y - old.y && new.y - old.y < UNIT);
        }
    }
}

#[test]
fn moving_with_any_chunk_size() {
    let enclosure = 5 * UNIT;
    for workers in [1usize, 2, 3, 7, 10, 11, 1000] {
        let mut system = ParticleSystem::new(10, enclosure, enclosure);
        system.move_particles(enclosure, workers);
        assert_eq!(system.particles().len(), 10);
        for p in system.particles() {
            assert!(0 <= p.x && p.x <= enclosure);
            assert!(0 <= p.y && p.y <= enclosure);
        }
    }
}

#[test]
fn moving_changes_positions() {
    let start = vec![Particle::new(5 * UNIT, 5 * UNIT); 12];
    let mut system = ParticleSystem::with_particles(start.clone());
    system.move_particles(10 * UNIT, 4);
    assert_ne!(system.particles(), &start[..]);
}

#[test]
fn particles_can_be_moved_in_place() {
    let enclosure = 4 * UNIT;
    let mut system = ParticleSystem::with_particles(vec![Particle::new(UNIT, UNIT); 9]);
    system.record_collisions(3);
    for chunk in system.particles_mut().chunks_mut(NUM_OF_THREADS) {
        thread_move_particles(chunk, enclosure);
    }
    assert_eq!(system.particles().len(), 9);
    assert_eq!(system.collision_count(), 3);
    for p in system.particles() {
        assert!(0 <= p.x && p.x <= 2 * UNIT);
        assert!(0 <= p.y && p.y <= 2 * UNIT);
    }
}

#[test]
fn recorded_collisions_add_up() {
    let mut system = ParticleSystem::with_particles(vec![Particle::new(0, 0)]);
    system.record_collisions(5);
    system.record_collisions(0);
    system.record_collisions(7);
    assert_eq!(system.collision_count(), 12);
}

#[test]
fn recorded_collisions_wrap_around() {
    let mut system = ParticleSystem::with_particles(vec![Particle::new(0, 0)]);
    system.record_collisions(u64::MAX);
    system.record_collisions(2);
    assert_eq!(system.collision_count(), 1);
}
