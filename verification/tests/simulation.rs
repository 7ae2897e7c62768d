use ant_mania::{
    build_world, detect_collisions, init_ants, live_colonies, move_chunk, phase_cleanup,
    phase_move, phase_move_and_detect, render_world, simulate, simulation_state, tick, Ant,
    ConfigError, Destruction, Direction, Outcome, SimulationState, World, CHUNK_SIZE, MAX_MOVES,
    MOVEMENT_SEED, PLACEMENT_SEED,
};

fn ant(colony: usize, moves: u32, alive: bool) -> Ant {
    Ant {
        current_colony: colony,
        moves,
        alive,
    }
}

fn assert_mirrored(world: &World) {
    let n = world.colonies.len();
    assert_eq!(world.alive.len(), n);
    assert_eq!(world.id_to_name.len(), n);
    assert_eq!(world.reverse_links.len(), n);
    for c in 0..n {
        for &(dir, t) in &world.colonies[c].outgoing {
            assert!(t < n);
            assert!(world.reverse_links[t].contains(&(dir, c)));
        }
        for (k, &(dir, s)) in world.reverse_links[c].iter().enumerate() {
            assert!(s < n);
            assert!(world.colonies[s].outgoing.contains(&(dir, c)));
            assert!(!world.reverse_links[c][..k].contains(&(dir, s)));
        }
    }
}

fn ring(n: usize) -> String {
    let mut text = String::new();
    for i in 0..n {
        let next = (i + 1) % n;
        let prev = (i + n - 1) % n;
        let across = (i + n / 2) % n;
        text.push_str(&format!(
            "c{} east=c{} west=c{} north=c{}\n",
            i, next, prev, across
        ));
    }
    text
}

#[test]
fn the_constants_are_as_documented() {
    assert_eq!(CHUNK_SIZE, 1000);
    assert_eq!(MOVEMENT_SEED, 12345);
    assert_eq!(PLACEMENT_SEED, 12345);
    assert_eq!(MAX_MOVES, 10_000);
}

#[test]
fn live_colonies_are_listed_in_order() {
    let mut world = build_world("A\nB\nC\nD").unwrap();
    assert_eq!(live_colonies(&world), vec![0, 1, 2, 3]);
    world.destroy_colony(2);
    world.destroy_colony(0);
    assert_eq!(live_colonies(&world), vec![1, 3]);
}

#[test]
fn ants_are_placed_on_live_colonies() {
    let mut world = build_world("A\nB\nC\nD\nE").unwrap();
    world.destroy_colony(1);
    world.destroy_colony(3);
    let ants = init_ants(&world, 500).unwrap();
    assert_eq!(ants.len(), 500);
    let mut seen = [false; 5];
    for a in &ants {
        assert!(a.alive);
        assert_eq!(a.moves, 0);
        assert!(world.alive[a.current_colony]);
        seen[a.current_colony] = true;
    }
    assert_eq!(seen, [true, false, true, false, true]);
}

#[test]
fn placing_no_ants_gives_no_ants() {
    let world = build_world("A").unwrap();
    assert_eq!(init_ants(&world, 0), Ok(Vec::new()));
}

#[test]
fn placing_is_the_same_every_time() {
    let world = build_world(&ring(20)).unwrap();
    assert_eq!(init_ants(&world, 100), init_ants(&world, 100));
}

#[test]
fn a_world_without_live_colonies_takes_no_ants() {
    let empty = World::new();
    assert_eq!(init_ants(&empty, 3), Err(ConfigError::NoLiveColony));
    assert_eq!(init_ants(&empty, 0), Err(ConfigError::NoLiveColony));
    let mut world = build_world("A south=B\nB north=A").unwrap();
    world.destroy_colony(0);
    world.destroy_colony(1);
    assert_eq!(init_ants(&world, 1), Err(ConfigError::NoLiveColony));
}

#[test]
fn a_chunk_moves_every_ant_one_step() {
    let world = build_world("A south=B\nB north=A").unwrap();
    let mut ants = vec![ant(0, 0, true), ant(1, 5, true), ant(0, 2, false)];
    move_chunk(&mut ants, &world, 3);
    assert_eq!(ants, vec![ant(1, 1, true), ant(0, 6, true), ant(0, 2, false)]);
}

#[test]
fn the_movement_phase_moves_every_chunk() {
    let world = build_world("A south=B\nB north=A").unwrap();
    let mut ants: Vec<Ant> = (0..2500).map(|i| ant(i % 2, 0, true)).collect();
    phase_move(&mut ants, &world);
    assert_eq!(ants.len(), 2500);
    for (i, a) in ants.iter().enumerate() {
        assert_eq!(*a, ant(1 - i % 2, 1, true));
    }
    let mut none: Vec<Ant> = Vec::new();
    phase_move(&mut none, &world);
    assert!(none.is_empty());
}

#[test]
fn the_movement_phase_is_the_same_every_time() {
    let world = build_world(&ring(50)).unwrap();
    let start = init_ants(&world, 3500).unwrap();
    let mut first = start.clone();
    let mut second = start.clone();
    phase_move(&mut first, &world);
    phase_move(&mut second, &world);
    assert_eq!(first, second);
    for (before, after) in start.iter().zip(first.iter()) {
        assert_eq!(after.moves, 1);
        assert!(world.colonies[before.current_colony]
            .outgoing
            .iter()
            .any(|&(_, t)| t == after.current_colony));
    }
}

#[test]
fn collisions_are_found_in_the_order_of_the_ants() {
    let ants = vec![
        ant(2, 1, true),
        ant(0, 1, true),
        ant(2, 1, false),
        ant(2, 1, true),
        ant(0, 1, true),
        ant(2, 1, true),
        ant(9, 1, false),
    ];
    assert_eq!(
        detect_collisions(&ants, 4),
        vec![vec![1, 4], vec![], vec![0, 3, 5], vec![]]
    );
    assert_eq!(detect_collisions(&Vec::new(), 2), vec![Vec::<usize>::new(); 2]);
    assert!(detect_collisions(&Vec::new(), 0).is_empty());
}

#[test]
fn move_and_detect_files_the_ants_where_they_arrive() {
    let world = build_world("A south=B\nB north=C\nC").unwrap();
    let mut ants = vec![ant(0, 0, true), ant(1, 0, true), ant(0, 0, true), ant(2, 0, true)];
    let buckets = phase_move_and_detect(&mut ants, &world);
    assert_eq!(buckets, vec![vec![], vec![0, 2], vec![1, 3]]);
    assert_eq!(
        ants,
        vec![ant(1, 1, true), ant(2, 1, true), ant(1, 1, true), ant(2, 1, true)]
    );
}

#[test]
fn cleanup_destroys_exactly_the_crowded_colonies() {
    let mut world = build_world("A south=B east=C\nB north=A east=C\nC west=B\nD north=A").unwrap();
    let mut ants = vec![
        ant(1, 1, true),
        ant(0, 1, true),
        ant(1, 1, true),
        ant(3, 1, true),
        ant(1, 1, true),
        ant(3, 1, true),
        ant(2, 1, true),
    ];
    let buckets = detect_collisions(&ants, 4);
    let events = phase_cleanup(&mut ants, &mut world, &buckets);
    assert_eq!(
        events,
        vec![
            Destruction {
                colony: 1,
                colony_name: "B".to_string(),
                first_ant: 0,
                second_ant: 2
            },
            Destruction {
                colony: 3,
                colony_name: "D".to_string(),
                first_ant: 3,
                second_ant: 5
            },
        ]
    );
    assert_eq!(world.alive, vec![true, false, true, false]);
    assert_eq!(
        ants,
        vec![
            ant(1, 1, false),
            ant(0, 1, true),
            ant(1, 1, false),
            ant(3, 1, false),
            ant(1, 1, false),
            ant(3, 1, false),
            ant(2, 1, true),
        ]
    );
    assert_eq!(world.colonies[0].outgoing, vec![(Direction::East, 2)]);
    assert!(world.colonies[2].outgoing.is_empty());
    assert_mirrored(&world);
    assert_eq!(render_world(&world), vec!["A east=C".to_string(), "C".to_string()]);
}

#[test]
fn cleanup_leaves_a_colony_with_one_ant_alone() {
    let mut world = build_world("A south=B\nB north=A").unwrap();
    let mut ants = vec![ant(0, 1, true), ant(1, 1, true)];
    let buckets = detect_collisions(&ants, 2);
    let events = phase_cleanup(&mut ants, &mut world, &buckets);
    assert!(events.is_empty());
    assert_eq!(world.alive, vec![true, true]);
    assert_eq!(ants, vec![ant(0, 1, true), ant(1, 1, true)]);
}

#[test]
fn the_state_tells_why_a_run_is_over() {
    assert_eq!(
        simulation_state(&Vec::new()),
        SimulationState::Terminated(Outcome::AllDead)
    );
    assert_eq!(
        simulation_state(&vec![ant(0, 3, false), ant(1, 10_000, false)]),
        SimulationState::Terminated(Outcome::AllDead)
    );
    assert_eq!(
        simulation_state(&vec![ant(0, 3, false), ant(1, 10_000, true)]),
        SimulationState::Terminated(Outcome::MaxMovesReached)
    );
    assert_eq!(
        simulation_state(&vec![ant(0, 9_999, true), ant(1, 10_000, true)]),
        SimulationState::Running
    );
    assert_eq!(
        simulation_state(&vec![ant(0, 20_000, true)]),
        SimulationState::Terminated(Outcome::MaxMovesReached)
    );
}

#[test]
fn two_ants_that_meet_destroy_the_colony() {
    let mut world = build_world("A south=B\nB north=A").unwrap();
    let mut ants = vec![Ant::new(0), Ant::new(0)];
    let report = simulate(&mut ants, &mut world);
    assert_eq!(report.ticks, 1);
    assert_eq!(report.outcome, Outcome::AllDead);
    assert_eq!(
        report.events,
        vec![Destruction {
            colony: 1,
            colony_name: "B".to_string(),
            first_ant: 0,
            second_ant: 1
        }]
    );
    assert_eq!(
        report.events[0].message(),
        "B has been destroyed by ant 0 and ant 1!"
    );
    assert_eq!(ants, vec![ant(1, 1, false), ant(1, 1, false)]);
    assert_eq!(world.alive, vec![true, false]);
    assert!(world.colonies[0].outgoing.is_empty());
    assert_eq!(render_world(&world), vec!["A".to_string()]);
    assert_mirrored(&world);
}

#[test]
fn a_trapped_ant_runs_out_of_moves() {
    let mut world = build_world("Trap").unwrap();
    let mut ants = vec![Ant::new(0)];
    let report = simulate(&mut ants, &mut world);
    assert_eq!(report.ticks, 10_000);
    assert_eq!(report.outcome, Outcome::MaxMovesReached);
    assert!(report.events.is_empty());
    assert_eq!(ants, vec![ant(0, 10_000, true)]);
    assert_eq!(world.alive, vec![true]);
    assert_eq!(render_world(&world), vec!["Trap".to_string()]);
}

#[test]
fn a_run_without_ants_ends_after_one_tick() {
    let mut world = build_world("A").unwrap();
    let mut ants: Vec<Ant> = Vec::new();
    let report = simulate(&mut ants, &mut world);
    assert_eq!(report.ticks, 1);
    assert_eq!(report.outcome, Outcome::AllDead);
    assert!(report.events.is_empty());
    assert_eq!(render_world(&world), vec!["A".to_string()]);

    let mut looped = build_world("A north=A east=A").unwrap();
    let report = simulate(&mut ants, &mut looped);
    assert_eq!(report.ticks, 1);
    assert_eq!(render_world(&looped), vec!["A north=A east=A".to_string()]);
}

#[test]
fn a_tick_keeps_every_ant_and_every_colony() {
    let mut world = build_world(&ring(40)).unwrap();
    let mut ants = init_ants(&world, 60).unwrap();
    for _ in 0..50 {
        let before_ants = ants.clone();
        let before_alive = world.alive.clone();
        let events = tick(&mut ants, &mut world);
        assert_eq!(ants.len(), 60);
        assert_eq!(world.colonies.len(), 40);
        assert_eq!(world.id_to_name.len(), 40);
        assert_mirrored(&world);
        let mut fallen = 0;
        for c in 0..40 {
            if !before_alive[c] {
                assert!(!world.alive[c]);
            } else if !world.alive[c] {
                fallen += 1;
                assert!(world.colonies[c].outgoing.is_empty());
                assert!(world.reverse_links[c].is_empty());
            }
        }
        assert_eq!(events.len(), fallen);
        for e in &events {
            assert!(before_alive[e.colony] && !world.alive[e.colony]);
            assert_eq!(e.colony_name, world.id_to_name[e.colony]);
            assert!(e.first_ant < e.second_ant);
            assert_eq!(ants[e.first_ant].current_colony, e.colony);
            assert_eq!(ants[e.second_ant].current_colony, e.colony);
        }
        for (old, new) in before_ants.iter().zip(ants.iter()) {
            if !old.alive {
                assert_eq!(old, new);
            } else {
                assert_eq!(new.moves, old.moves + 1);
                assert_eq!(new.alive, world.alive[new.current_colony]);
            }
        }
        let alive = ants.iter().filter(|a| a.alive).count();
        let dead = ants.iter().filter(|a| !a.alive).count();
        assert_eq!(alive + dead, 60);
    }
}

#[test]
fn a_colony_falls_exactly_if_two_ants_meet_on_it() {
    let mut world = build_world(&ring(30)).unwrap();
    let mut ants = init_ants(&world, 25).unwrap();
    for _ in 0..20 {
        let before_alive = world.alive.clone();
        let buckets = phase_move_and_detect(&mut ants, &world);
        let moved = ants.clone();
        phase_cleanup(&mut ants, &mut world, &buckets);
        for c in 0..30 {
            let here = moved
                .iter()
                .filter(|a| a.alive && a.current_colony == c)
                .count();
            assert_eq!(buckets[c].len(), here);
            assert_eq!(before_alive[c] && !world.alive[c], here >= 2);
        }
    }
}

#[test]
fn a_crowded_run_ends_within_the_cap() {
    let mut world = build_world(&ring(12)).unwrap();
    let mut ants = init_ants(&world, 2300).unwrap();
    let report = simulate(&mut ants, &mut world);
    assert!(report.ticks >= 1 && report.ticks <= MAX_MOVES);
    assert_eq!(ants.len(), 2300);
    assert_eq!(
        simulation_state(&ants),
        SimulationState::Terminated(report.outcome)
    );
    assert_mirrored(&world);
    let fallen = world.alive.iter().filter(|a| !**a).count();
    assert_eq!(report.events.len(), fallen);
    assert_eq!(render_world(&world).len(), 12 - fallen);
}

#[test]
fn a_run_is_the_same_every_time() {
    let text = ring(64);
    let mut first_world = build_world(&text).unwrap();
    let mut second_world = build_world(&text).unwrap();
    let mut first = init_ants(&first_world, 40).unwrap();
    let mut second = init_ants(&second_world, 40).unwrap();
    let a = simulate(&mut first, &mut first_world);
    let b = simulate(&mut second, &mut second_world);
    assert_eq!(a.ticks, b.ticks);
    assert_eq!(a.outcome, b.outcome);
    assert_eq!(a.events, b.events);
    assert_eq!(first, second);
    assert_eq!(render_world(&first_world), render_world(&second_world));
}

#[test]
fn late_ants_shorten_the_run() {
    let mut world = build_world("A\nB").unwrap();
    let mut ants = vec![ant(0, 9_990, true), ant(1, 9_995, true), ant(1, 0, false)];
    let report = simulate(&mut ants, &mut world);
    assert_eq!(report.ticks, 10);
    assert_eq!(report.outcome, Outcome::MaxMovesReached);
    assert_eq!(
        ants,
        vec![ant(0, 10_000, true), ant(1, 10_000, true), ant(1, 0, false)]
    );
}
