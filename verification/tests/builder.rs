use ant_mania::{build_world, is_space_char, render_world, Direction, ParseError};

fn names(world: &ant_mania::World) -> Vec<String> {
    world.id_to_name.clone()
}

#[test]
fn empty_text_gives_an_empty_world() {
    let world = build_world("").unwrap();
    assert_eq!(world.colonies.len(), 0);
    assert!(render_world(&world).is_empty());
}

#[test]
fn a_single_name_gives_one_colony() {
    let world = build_world("A").unwrap();
    assert_eq!(names(&world), vec!["A".to_string()]);
    assert_eq!(world.alive, vec![true]);
    assert!(world.colonies[0].outgoing.is_empty());
}

#[test]
fn ids_follow_the_order_in_which_names_are_met() {
    let world = build_world("A south=B east=C\nB north=A\nD west=C\n").unwrap();
    assert_eq!(
        names(&world),
        vec!["A".to_string(), "B".to_string(), "C".to_string(), "D".to_string()]
    );
    assert_eq!(
        world.colonies[0].outgoing,
        vec![(Direction::South, 1), (Direction::East, 2)]
    );
    assert_eq!(world.colonies[1].outgoing, vec![(Direction::North, 0)]);
    assert!(world.colonies[2].outgoing.is_empty());
    assert_eq!(world.colonies[3].outgoing, vec![(Direction::West, 2)]);
    assert_eq!(world.reverse_links[0], vec![(Direction::North, 1)]);
    assert_eq!(world.reverse_links[1], vec![(Direction::South, 0)]);
    assert_eq!(
        world.reverse_links[2],
        vec![(Direction::East, 0), (Direction::West, 3)]
    );
    assert!(world.reverse_links[3].is_empty());
    assert_eq!(world.alive, vec![true; 4]);
}

#[test]
fn all_four_directions_are_read() {
    let world = build_world("A north=B south=C east=D west=E").unwrap();
    assert_eq!(
        world.colonies[0].outgoing,
        vec![
            (Direction::North, 1),
            (Direction::South, 2),
            (Direction::East, 3),
            (Direction::West, 4)
        ]
    );
}

#[test]
fn blank_lines_are_skipped() {
    let world = build_world("\n\nA south=B\n   \n\t\nB north=A\n\n").unwrap();
    assert_eq!(names(&world), vec!["A".to_string(), "B".to_string()]);
    assert_eq!(world.colonies[0].outgoing, vec![(Direction::South, 1)]);
    assert_eq!(world.colonies[1].outgoing, vec![(Direction::North, 0)]);
}

#[test]
fn any_white_space_separates_words() {
    let world = build_world("  A \t south=B\u{a0}east=C\u{3000}\r\nB\u{2003}north=A\r\n").unwrap();
    assert_eq!(
        names(&world),
        vec!["A".to_string(), "B".to_string(), "C".to_string()]
    );
    assert_eq!(
        world.colonies[0].outgoing,
        vec![(Direction::South, 1), (Direction::East, 2)]
    );
    assert_eq!(world.colonies[1].outgoing, vec![(Direction::North, 0)]);
}

#[test]
fn a_link_without_separator_is_refused() {
    assert_eq!(build_world("A south").err(), Some(ParseError::MissingSeparator));
    assert_eq!(
        build_world("A south=B\nB northA").err(),
        Some(ParseError::MissingSeparator)
    );
}

#[test]
fn an_unknown_direction_is_refused() {
    assert_eq!(build_world("A up=B").err(), Some(ParseError::InvalidDirection));
    assert_eq!(build_world("A North=B").err(), Some(ParseError::InvalidDirection));
    assert_eq!(build_world("A =B").err(), Some(ParseError::InvalidDirection));
    assert_eq!(build_world("A norths=B").err(), Some(ParseError::InvalidDirection));
    assert_eq!(build_world("A nort=B").err(), Some(ParseError::InvalidDirection));
}

#[test]
fn the_first_fault_in_reading_order_is_reported() {
    assert_eq!(
        build_world("A up=B south\nC north").err(),
        Some(ParseError::InvalidDirection)
    );
    assert_eq!(
        build_world("A south up=B").err(),
        Some(ParseError::MissingSeparator)
    );
}

#[test]
fn a_link_is_cut_at_its_first_separator() {
    let world = build_world("A north=B=C").unwrap();
    assert_eq!(names(&world), vec!["A".to_string(), "B=C".to_string()]);
    assert_eq!(world.colonies[0].outgoing, vec![(Direction::North, 1)]);
}

#[test]
fn a_link_may_name_the_empty_name() {
    let world = build_world("A north=").unwrap();
    assert_eq!(names(&world), vec!["A".to_string(), "".to_string()]);
    assert_eq!(world.colonies[0].outgoing, vec![(Direction::North, 1)]);
}

#[test]
fn a_colony_name_may_hold_a_separator() {
    let world = build_world("A=B").unwrap();
    assert_eq!(names(&world), vec!["A=B".to_string()]);
}

#[test]
fn repeated_directions_are_all_kept() {
    let world = build_world("A north=B north=C\nA north=B").unwrap();
    assert_eq!(
        world.colonies[0].outgoing,
        vec![
            (Direction::North, 1),
            (Direction::North, 2),
            (Direction::North, 1)
        ]
    );
    assert_eq!(world.reverse_links[1], vec![(Direction::North, 0)]);
    assert_eq!(world.reverse_links[2], vec![(Direction::North, 0)]);
}

#[test]
fn names_outside_ascii_are_kept() {
    let world = build_world("Zürich east=東京\n東京 west=Zürich").unwrap();
    assert_eq!(names(&world), vec!["Zürich".to_string(), "東京".to_string()]);
    assert_eq!(
        render_world(&world),
        vec!["Zürich east=東京".to_string(), "東京 west=Zürich".to_string()]
    );
}

#[test]
fn white_space_is_what_std_calls_white_space() {
    let mut code: u32 = 0;
    while code <= 0x3100 {
        if let Some(c) = char::from_u32(code) {
            assert_eq!(is_space_char(c), c.is_whitespace(), "U+{:04X}", code);
        }
        code += 1;
    }
    assert!(!is_space_char('\u{feff}'));
    assert!(!is_space_char('\u{10ffff}'));
}

#[test]
fn reading_agrees_with_splitting_by_std() {
    let text = " A  north=B \n\nB south=A\teast=C\r\nC\n D west=A";
    let world = build_world(text).unwrap();
    let mut expected: Vec<String> = Vec::new();
    for line in text.lines() {
        for (i, word) in line.split_whitespace().enumerate() {
            let name = if i == 0 {
                word.to_string()
            } else {
                word.split_once('=').unwrap().1.to_string()
            };
            if !expected.contains(&name) {
                expected.push(name);
            }
        }
    }
    assert_eq!(names(&world), expected);
}
