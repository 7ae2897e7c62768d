use ant_mania::{build_world, render_world, Destruction, Direction, World};

#[test]
fn a_world_is_rendered_as_it_was_written() {
    let text = "A south=B east=C\nB north=A\nC";
    let world = build_world(text).unwrap();
    assert_eq!(
        render_world(&world),
        vec![
            "A south=B east=C".to_string(),
            "B north=A".to_string(),
            "C".to_string()
        ]
    );
}

#[test]
fn a_colony_without_edges_is_rendered_as_its_name() {
    let mut world = World::new();
    world.get_or_add_colony("Lonely".to_string());
    assert_eq!(render_world(&world), vec!["Lonely".to_string()]);
}

#[test]
fn dead_colonies_are_left_out() {
    let mut world = build_world("A south=B\nB north=A east=C\nC west=B").unwrap();
    world.destroy_colony(1);
    assert_eq!(render_world(&world), vec!["A".to_string(), "C".to_string()]);
}

#[test]
fn each_direction_has_its_word() {
    let mut world = World::new();
    let a = world.get_or_add_colony("A".to_string());
    world.add_direction(a, Direction::North, a);
    world.add_direction(a, Direction::South, a);
    world.add_direction(a, Direction::East, a);
    world.add_direction(a, Direction::West, a);
    assert_eq!(
        render_world(&world),
        vec!["A north=A south=A east=A west=A".to_string()]
    );
    assert_eq!(Direction::North.name(), "north");
    assert_eq!(Direction::South.name(), "south");
    assert_eq!(Direction::East.name(), "east");
    assert_eq!(Direction::West.name(), "west");
}

#[test]
fn a_single_colony_round_trips() {
    for text in ["A", "A north=A", "Home west=Home east=Home south=Home"] {
        let world = build_world(text).unwrap();
        assert_eq!(world.colonies.len(), 1);
        assert_eq!(render_world(&world), vec![text.to_string()]);
    }
}

#[test]
fn the_destruction_line_names_colony_and_ants() {
    let event = Destruction {
        colony: 1,
        colony_name: "B".to_string(),
        first_ant: 0,
        second_ant: 1,
    };
    assert_eq!(event.message(), "B has been destroyed by ant 0 and ant 1!");
    let event = Destruction {
        colony: 7,
        colony_name: "Far Away".to_string(),
        first_ant: 10,
        second_ant: 9_876_543_210,
    };
    assert_eq!(
        event.message(),
        "Far Away has been destroyed by ant 10 and ant 9876543210!"
    );
    let event = Destruction {
        colony: 0,
        colony_name: String::new(),
        first_ant: 109,
        second_ant: usize::MAX,
    };
    assert_eq!(
        event.message(),
        format!(" has been destroyed by ant 109 and ant {}!", usize::MAX)
    );
}
