use ant_mania::{advance_ant, build_world, update_ant, Ant, MAX_MOVES};
use rand::rngs::SmallRng;
use rand::SeedableRng;

#[test]
fn a_new_ant_is_alive_and_has_not_moved() {
    assert_eq!(
        Ant::new(3),
        Ant {
            current_colony: 3,
            moves: 0,
            alive: true
        }
    );
}

#[test]
fn an_ant_follows_the_edge_that_is_picked() {
    let world = build_world("A north=B south=C east=D\nB\nC\nD").unwrap();
    for (pick, target) in [(0usize, 1usize), (1, 2), (2, 3)] {
        let mut ant = Ant::new(0);
        advance_ant(&mut ant, &world, pick);
        assert_eq!(
            ant,
            Ant {
                current_colony: target,
                moves: 1,
                alive: true
            }
        );
    }
}

#[test]
fn an_ant_in_a_dead_end_counts_its_moves_and_stays() {
    let world = build_world("A north=B\nB").unwrap();
    let mut ant = Ant::new(1);
    advance_ant(&mut ant, &world, 0);
    advance_ant(&mut ant, &world, 5);
    assert_eq!(
        ant,
        Ant {
            current_colony: 1,
            moves: 2,
            alive: true
        }
    );
}

#[test]
fn an_ant_on_a_dead_colony_dies_without_moving() {
    let mut world = build_world("A north=B\nB south=A").unwrap();
    world.destroy_colony(0);
    let mut ant = Ant {
        current_colony: 0,
        moves: 4,
        alive: true,
    };
    advance_ant(&mut ant, &world, 0);
    assert_eq!(
        ant,
        Ant {
            current_colony: 0,
            moves: 4,
            alive: false
        }
    );
}

#[test]
fn a_dead_ant_is_left_alone() {
    let world = build_world("A north=B\nB south=A").unwrap();
    let dead = Ant {
        current_colony: 0,
        moves: 7,
        alive: false,
    };
    let mut ant = dead;
    advance_ant(&mut ant, &world, 0);
    assert_eq!(ant, dead);
    let mut rng = SmallRng::seed_from_u64(1);
    update_ant(&mut ant, &world, &mut rng);
    assert_eq!(ant, dead);
    let mut far = Ant {
        current_colony: 99,
        moves: 7,
        alive: false,
    };
    update_ant(&mut far, &world, &mut rng);
    assert_eq!(far.current_colony, 99);
}

#[test]
fn the_move_counter_stops_at_the_cap() {
    let world = build_world("A north=A").unwrap();
    let mut ant = Ant {
        current_colony: 0,
        moves: MAX_MOVES - 1,
        alive: true,
    };
    advance_ant(&mut ant, &world, 0);
    assert_eq!(ant.moves, MAX_MOVES);
    advance_ant(&mut ant, &world, 0);
    assert_eq!(ant.moves, MAX_MOVES);
    let mut late = Ant {
        current_colony: 0,
        moves: u32::MAX,
        alive: true,
    };
    advance_ant(&mut late, &world, 0);
    assert_eq!(late.moves, u32::MAX);
    assert_eq!(MAX_MOVES, 10_000);
}

#[test]
fn a_random_step_takes_one_of_the_edges() {
    let world = build_world("A north=B south=C east=D\nB\nC\nD").unwrap();
    let mut rng = SmallRng::seed_from_u64(7);
    let mut seen = [false; 4];
    for _ in 0..200 {
        let mut ant = Ant::new(0);
        update_ant(&mut ant, &world, &mut rng);
        assert!(ant.alive);
        assert_eq!(ant.moves, 1);
        assert!(ant.current_colony >= 1 && ant.current_colony <= 3);
        seen[ant.current_colony] = true;
    }
    assert_eq!(seen, [false, true, true, true]);
}

#[test]
fn a_random_step_in_a_dead_end_asks_for_no_number() {
    let world = build_world("A").unwrap();
    let mut rng = SmallRng::seed_from_u64(7);
    let mut untouched = SmallRng::seed_from_u64(7);
    let mut ant = Ant::new(0);
    update_ant(&mut ant, &world, &mut rng);
    assert_eq!(
        ant,
        Ant {
            current_colony: 0,
            moves: 1,
            alive: true
        }
    );
    assert_eq!(rng, untouched);
    let probe = build_world("A north=A").unwrap();
    update_ant(&mut ant, &probe, &mut rng);
    assert_ne!(rng, untouched);
    let _ = &mut untouched;
}
