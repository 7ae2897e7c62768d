use ant_mania::{Direction, World};

#[test]
fn new_world_is_empty() {
    let world = World::new();
    assert_eq!(world.colonies.len(), 0);
    assert_eq!(world.alive.len(), 0);
    assert_eq!(world.id_to_name.len(), 0);
    assert_eq!(world.reverse_links.len(), 0);
}

#[test]
fn get_or_add_colony_is_idempotent() {
    let mut world = World::new();
    let a = world.get_or_add_colony("A".to_string());
    let b = world.get_or_add_colony("B".to_string());
    let a_again = world.get_or_add_colony("A".to_string());
    assert_eq!(a, 0);
    assert_eq!(b, 1);
    assert_eq!(a_again, 0);
    assert_eq!(world.colonies.len(), 2);
    assert_eq!(world.id_to_name, vec!["A".to_string(), "B".to_string()]);
    assert_eq!(world.alive, vec![true, true]);
}

#[test]
fn add_direction_mirrors_the_edge() {
    let mut world = World::new();
    let a = world.get_or_add_colony("A".to_string());
    let b = world.get_or_add_colony("B".to_string());
    world.add_direction(a, Direction::South, b);
    assert_eq!(world.colonies[a].outgoing, vec![(Direction::South, b)]);
    assert_eq!(world.reverse_links[b], vec![(Direction::South, a)]);
    assert!(world.colonies[b].outgoing.is_empty());
    assert!(world.reverse_links[a].is_empty());
}

#[test]
fn destroy_colony_cuts_every_edge_that_touches_it() {
    let mut world = World::new();
    let a = world.get_or_add_colony("A".to_string());
    let b = world.get_or_add_colony("B".to_string());
    let c = world.get_or_add_colony("C".to_string());
    world.add_direction(a, Direction::South, b);
    world.add_direction(a, Direction::East, c);
    world.add_direction(b, Direction::North, a);
    world.add_direction(b, Direction::East, c);
    world.add_direction(c, Direction::West, b);
    world.add_direction(b, Direction::West, b);
    world.destroy_colony(b);
    assert_eq!(world.alive, vec![true, false, true]);
    assert_eq!(world.colonies[a].outgoing, vec![(Direction::East, c)]);
    assert!(world.colonies[b].outgoing.is_empty());
    assert!(world.colonies[c].outgoing.is_empty());
    assert!(world.reverse_links[a].is_empty());
    assert!(world.reverse_links[b].is_empty());
    assert_eq!(world.reverse_links[c], vec![(Direction::East, a)]);
    assert_eq!(world.colonies.len(), 3);
    assert_eq!(world.id_to_name.len(), 3);
}

#[test]
fn destroy_colony_on_a_dead_colony_changes_nothing() {
    let mut world = World::new();
    let a = world.get_or_add_colony("A".to_string());
    let b = world.get_or_add_colony("B".to_string());
    world.add_direction(a, Direction::South, b);
    world.destroy_colony(b);
    world.add_direction(a, Direction::North, a);
    world.destroy_colony(b);
    assert_eq!(world.alive, vec![true, false]);
    assert_eq!(world.colonies[a].outgoing, vec![(Direction::North, a)]);
    assert_eq!(world.reverse_links[a], vec![(Direction::North, a)]);
}

#[test]
fn duplicate_edges_are_kept_and_cut_together() {
    let mut world = World::new();
    let a = world.get_or_add_colony("A".to_string());
    let b = world.get_or_add_colony("B".to_string());
    let c = world.get_or_add_colony("C".to_string());
    world.add_direction(a, Direction::North, b);
    world.add_direction(a, Direction::North, c);
    world.add_direction(a, Direction::North, b);
    assert_eq!(
        world.colonies[a].outgoing,
        vec![(Direction::North, b), (Direction::North, c), (Direction::North, b)]
    );
    assert_eq!(world.reverse_links[b], vec![(Direction::North, a)]);
    world.destroy_colony(b);
    assert_eq!(world.colonies[a].outgoing, vec![(Direction::North, c)]);
    assert_eq!(world.reverse_links[c], vec![(Direction::North, a)]);
}
