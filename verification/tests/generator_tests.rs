use lockgrid::generator::{contains_pos, settle, GenerateError, GeneratorState, RETRIES};
use lockgrid::layers::{direction, MAX_ROOMS, MIN_ROOMS};
use lockgrid::wiring::Pass;
use lockgrid::node::Node;
use lockgrid::pos::{ConnectState, Line, Pos};

fn sorted(mut items: Vec<Pos>) -> Vec<(isize, isize)> {
    let mut out: Vec<(isize, isize)> = items.drain(..).map(|p| (p.0, p.1)).collect();
    out.sort();
    out
}

/// A start room at (1, 1) on a grid of three by three, then a first layer of
/// the rooms (0, 1) and (1, 2), then a second layer of the room (0, 2).
fn two_layers() -> GeneratorState {
    let mut state = GeneratorState::root(3, 3, Pos(1, 1));
    state.begin_layer(2);
    state.place(Pos(0, 1));
    state.place(Pos(1, 2));
    state.generate_connections(1);
    state.begin_layer(1);
    state.place(Pos(0, 2));
    state
}

/// The first layer around a start room in the middle of a grid of five by
/// five: an advance from there places four rooms or fails.
fn first_layer(rng: &mut rand::rngs::ThreadRng) -> (GeneratorState, GeneratorState) {
    let root = GeneratorState::root(5, 5, Pos(2, 2));
    loop {
        if let Ok(next) = root.generate_next_state(rng) {
            return (root, next);
        }
    }
}

#[test]
fn the_four_directions() {
    assert_eq!(direction(0), Pos(-1, 0));
    assert_eq!(direction(1), Pos(1, 0));
    assert_eq!(direction(2), Pos(0, -1));
    assert_eq!(direction(3), Pos(0, 1));
}

#[test]
fn the_tunable_numbers() {
    assert_eq!(MIN_ROOMS, 4);
    assert_eq!(MAX_ROOMS, 7);
    assert_eq!(RETRIES, 10);
}

#[test]
fn contains_pos_finds_what_is_there() {
    let items = vec![Pos(0, 0), Pos(1, 2)];
    assert!(contains_pos(&items, Pos(1, 2)));
    assert!(!contains_pos(&items, Pos(2, 1)));
    assert!(!contains_pos(&Vec::new(), Pos(0, 0)));
}

#[test]
fn root_holds_the_start_room_only() {
    let state = GeneratorState::root(4, 3, Pos(2, 1));
    assert_eq!(state.layer(), 0);
    assert_eq!(state.amount(), 1);
    assert_eq!(state.pos_list(), &vec![Pos(2, 1)]);
    assert_eq!(state.node_map().width(), 4);
    assert_eq!(state.node_map().height(), 3);
    assert_eq!(state.node_map().connection_count(), 0);
    assert_eq!(state.node_map().get_node(Pos(2, 1)), Some(&Node::default()));
    assert_eq!(state.node_map().get_node(Pos(0, 0)), None);
}

#[test]
fn spaces_around_a_room_in_the_middle() {
    let state = GeneratorState::root(3, 3, Pos(1, 1));
    assert_eq!(sorted(state.available_spaces_with_skip(0)), vec![(0, 1), (1, 0), (1, 2), (2, 1)]);
}

#[test]
fn spaces_around_a_room_in_the_corner() {
    let state = GeneratorState::root(3, 3, Pos(0, 0));
    assert_eq!(sorted(state.available_spaces_with_skip(0)), vec![(0, 1), (1, 0)]);
    let state = GeneratorState::root(3, 3, Pos(2, 2));
    assert_eq!(sorted(state.available_spaces_with_skip(0)), vec![(1, 2), (2, 1)]);
}

#[test]
fn spaces_on_a_single_cell_are_none() {
    let state = GeneratorState::root(1, 1, Pos(0, 0));
    assert!(state.available_spaces_with_skip(0).is_empty());
}

#[test]
fn spaces_past_the_end_of_the_list_are_none() {
    let state = GeneratorState::root(3, 3, Pos(1, 1));
    assert!(state.available_spaces_with_skip(1).is_empty());
    assert!(state.available_spaces_with_skip(7).is_empty());
}

#[test]
fn spaces_leave_out_taken_cells_and_list_each_cell_once() {
    let mut state = GeneratorState::root(3, 3, Pos(1, 1));
    state.begin_layer(2);
    state.place(Pos(0, 1));
    state.place(Pos(1, 0));
    // (0, 0) is next to both new rooms
    assert_eq!(sorted(state.available_spaces_with_skip(0)), vec![(0, 0), (0, 2), (1, 2), (2, 0), (2, 1)]);
    assert_eq!(sorted(state.available_spaces_with_skip(1)), vec![(0, 0), (0, 2), (2, 0)]);
    assert_eq!(sorted(state.available_spaces_with_skip(2)), vec![(0, 0), (2, 0)]);
}

#[test]
fn place_lists_the_room_last_with_the_current_layer() {
    let mut state = GeneratorState::root(3, 3, Pos(1, 1));
    state.begin_layer(1);
    state.place(Pos(1, 2));
    assert_eq!(state.pos_list(), &vec![Pos(1, 1), Pos(1, 2)]);
    assert_eq!(state.node_map().get_node(Pos(1, 2)), Some(&Node { layer: 1, key: None }));
    assert_eq!(state.node_map().get_node(Pos(1, 1)), Some(&Node::default()));
    assert_eq!(state.node_map().connection_count(), 0);
}

#[test]
fn generate_node_places_on_an_available_cell() {
    let mut rng = rand::thread_rng();
    for _ in 0..50 {
        let mut state = GeneratorState::root(3, 3, Pos(0, 0));
        state.begin_layer(1);
        assert_eq!(state.generate_node(0, 1, &mut rng), Ok(()));
        assert_eq!(state.pos_list().len(), 2);
        let placed = state.pos_list()[1];
        assert!(placed == Pos(0, 1) || placed == Pos(1, 0));
        assert_eq!(state.node_map().get_node(placed), Some(&Node { layer: 1, key: None }));
    }
}

#[test]
fn generate_node_reaches_every_available_cell() {
    let mut rng = rand::thread_rng();
    let mut seen = Vec::new();
    for _ in 0..400 {
        let mut state = GeneratorState::root(3, 3, Pos(1, 1));
        state.begin_layer(1);
        assert_eq!(state.generate_node(0, 1, &mut rng), Ok(()));
        let placed = state.pos_list()[1];
        if !seen.contains(&placed) {
            seen.push(placed);
        }
    }
    assert_eq!(sorted(seen), vec![(0, 1), (1, 0), (1, 2), (2, 1)]);
}

#[test]
fn generate_node_without_space_fails_and_changes_nothing() {
    let mut rng = rand::thread_rng();
    let mut state = GeneratorState::root(1, 1, Pos(0, 0));
    assert_eq!(state.generate_node(0, 1, &mut rng), Err(GenerateError::NoSpace));
    assert_eq!(state.pos_list(), &vec![Pos(0, 0)]);
    let mut state = GeneratorState::root(3, 3, Pos(1, 1));
    assert_eq!(state.generate_node(1, 1, &mut rng), Err(GenerateError::NoSpace));
    assert_eq!(state.generate_node(1, 5, &mut rng), Err(GenerateError::NoSpace));
    assert_eq!(state.generate_node(0, 0, &mut rng), Err(GenerateError::NoSpace));
    assert_eq!(state.pos_list().len(), 1);
}

#[test]
fn generate_node_does_not_lean_on_rooms_of_the_same_advance() {
    let mut rng = rand::thread_rng();
    // three cells in a row, the start room at one end
    let mut state = GeneratorState::root(3, 1, Pos(0, 0));
    state.begin_layer(4);
    assert_eq!(state.generate_node(0, 1, &mut rng), Ok(()));
    assert_eq!(state.pos_list(), &vec![Pos(0, 0), Pos(0, 1)]);
    // the last cell lies next to the new room only
    assert_eq!(state.generate_node(0, 1, &mut rng), Err(GenerateError::NoSpace));
    assert_eq!(state.pos_list(), &vec![Pos(0, 0), Pos(0, 1)]);
    assert_eq!(state.node_map().get_node(Pos(0, 2)), None);
}

#[test]
fn generate_node_takes_each_cell_next_to_the_layer_before_once() {
    let mut rng = rand::thread_rng();
    for _ in 0..20 {
        let mut state = GeneratorState::root(5, 5, Pos(2, 2));
        state.begin_layer(4);
        for _ in 0..4 {
            assert_eq!(state.generate_node(0, 1, &mut rng), Ok(()));
        }
        assert_eq!(sorted(state.pos_list()[1..].to_vec()), vec![(1, 2), (2, 1), (2, 3), (3, 2)]);
        assert_eq!(state.generate_node(0, 1, &mut rng), Err(GenerateError::NoSpace));
    }
}

#[test]
fn spaces_between_two_places_of_the_list() {
    let mut state = GeneratorState::root(3, 3, Pos(1, 1));
    state.begin_layer(2);
    state.place(Pos(0, 1));
    state.place(Pos(1, 0));
    assert_eq!(sorted(state.available_spaces(0, 1)), vec![(1, 2), (2, 1)]);
    assert_eq!(sorted(state.available_spaces(1, 2)), vec![(0, 0), (0, 2)]);
    assert_eq!(sorted(state.available_spaces(2, 3)), vec![(0, 0), (2, 0)]);
    assert_eq!(sorted(state.available_spaces(0, 3)), sorted(state.available_spaces_with_skip(0)));
    assert_eq!(sorted(state.available_spaces(1, 9)), sorted(state.available_spaces_with_skip(1)));
    assert!(state.available_spaces(2, 2).is_empty());
    assert!(state.available_spaces(2, 1).is_empty());
    assert!(state.available_spaces(3, 9).is_empty());
}

#[test]
fn first_layer_is_wired_openly() {
    let mut state = GeneratorState::root(3, 3, Pos(1, 1));
    state.begin_layer(3);
    state.place(Pos(0, 1));
    state.place(Pos(0, 0));
    state.place(Pos(1, 0));
    let into_previous = state.generate_connections(1);
    assert_eq!(into_previous, 2);
    let map = state.node_map();
    assert_eq!(map.connection_count(), 4);
    let state_of = |a: Pos, b: Pos| map.get_connection(Line(a, b)).map(|c| c.state);
    assert_eq!(state_of(Pos(1, 1), Pos(0, 1)), Some(ConnectState::Open));
    assert_eq!(state_of(Pos(1, 1), Pos(1, 0)), Some(ConnectState::Open));
    assert_eq!(state_of(Pos(0, 0), Pos(0, 1)), Some(ConnectState::Open));
    assert_eq!(state_of(Pos(0, 0), Pos(1, 0)), Some(ConnectState::Open));
    assert_eq!(state_of(Pos(0, 0), Pos(1, 1)), None);
    assert_eq!(state_of(Pos(1, 1), Pos(1, 2)), None);
}

#[test]
fn second_layer_is_locked_and_far_rooms_get_shortcuts() {
    let mut state = two_layers();
    state.place(Pos(2, 1));
    let locked = state.generate_connections(3);
    // (0, 2) lies next to (0, 1) and (1, 2), both of the first layer;
    // (2, 1) lies next to the start room only
    assert_eq!(locked, 2);
    let map = state.node_map();
    let state_of = |a: Pos, b: Pos| map.get_connection(Line(a, b)).map(|c| c.state);
    assert_eq!(state_of(Pos(0, 2), Pos(0, 1)), Some(ConnectState::Locked));
    assert_eq!(state_of(Pos(0, 2), Pos(1, 2)), Some(ConnectState::Locked));
    assert_eq!(state_of(Pos(2, 1), Pos(1, 1)), Some(ConnectState::Shortcut));
    assert_eq!(state_of(Pos(1, 1), Pos(0, 1)), Some(ConnectState::Open));
    assert_eq!(state_of(Pos(1, 1), Pos(1, 2)), Some(ConnectState::Open));
    assert_eq!(map.connection_count(), 5);
}

#[test]
fn wiring_joins_no_pair_twice() {
    let mut state = GeneratorState::root(3, 3, Pos(1, 1));
    state.begin_layer(4);
    state.place(Pos(0, 1));
    state.place(Pos(0, 0));
    state.place(Pos(1, 0));
    state.place(Pos(0, 2));
    state.generate_connections(1);
    let conns = state.node_map().connections();
    for i in 0..conns.len() {
        for j in 0..conns.len() {
            if i != j {
                assert!(conns[i].line != conns[j].line);
            }
        }
    }
    // wiring once more adds nothing
    let mut again = state.clone();
    assert_eq!(again.generate_connections(1), 0);
    assert_eq!(again.node_map().connection_count(), state.node_map().connection_count());
}

#[test]
fn each_pass_deals_with_its_own_neighbours() {
    let mut state = two_layers();
    assert_eq!(state.wire_pass(3, Pass::Same), 0);
    assert_eq!(state.wire_pass(3, Pass::Other), 0);
    assert_eq!(state.wire_pass(3, Pass::Previous), 2);
    assert_eq!(state.wire_pass(3, Pass::Previous), 0);
}

#[test]
fn key_candidates_leave_out_rooms_with_a_key() {
    let mut state = two_layers();
    assert_eq!(sorted(state.key_candidates(1, 3)), vec![(0, 1), (1, 2)]);
    assert_eq!(sorted(state.key_candidates(0, 4)), vec![(0, 1), (0, 2), (1, 1), (1, 2)]);
    assert!(state.key_candidates(2, 2).is_empty());
    state.place_keys(&vec![Pos(0, 1)]);
    assert_eq!(sorted(state.key_candidates(1, 3)), vec![(1, 2)]);
}

#[test]
fn place_keys_sets_the_key_of_the_current_layer() {
    let mut state = two_layers();
    state.place_keys(&vec![Pos(1, 2), Pos(0, 1)]);
    assert_eq!(state.node_map().get_node(Pos(1, 2)), Some(&Node { layer: 1, key: Some(2) }));
    assert_eq!(state.node_map().get_node(Pos(0, 1)), Some(&Node { layer: 1, key: Some(2) }));
    assert_eq!(state.node_map().get_node(Pos(1, 1)), Some(&Node { layer: 0, key: None }));
    assert_eq!(state.node_map().get_node(Pos(0, 2)), Some(&Node { layer: 2, key: None }));
}

#[test]
fn distribute_keys_gives_as_many_keys_as_asked() {
    let mut rng = rand::thread_rng();
    for _ in 0..30 {
        let mut state = two_layers();
        assert_eq!(state.distribute_keys(3, 1, &mut rng), Ok(()));
        let first = *state.node_map().get_node(Pos(0, 1)).unwrap();
        let second = *state.node_map().get_node(Pos(1, 2)).unwrap();
        assert!(
            (first.key == Some(2) && second.key == None) || (first.key == None && second.key == Some(2))
        );
        assert_eq!(state.node_map().get_node(Pos(1, 1)).unwrap().key, None);
        assert_eq!(state.node_map().get_node(Pos(0, 2)).unwrap().key, None);
    }
    let mut state = two_layers();
    assert_eq!(state.distribute_keys(3, 2, &mut rng), Ok(()));
    assert_eq!(state.node_map().get_node(Pos(0, 1)).unwrap().key, Some(2));
    assert_eq!(state.node_map().get_node(Pos(1, 2)).unwrap().key, Some(2));
}

#[test]
fn distribute_no_keys_changes_nothing() {
    let mut rng = rand::thread_rng();
    let mut state = two_layers();
    assert_eq!(state.distribute_keys(3, 0, &mut rng), Ok(()));
    assert!(state.pos_list().iter().all(|p| state.node_map().get_node(*p).unwrap().key.is_none()));
}

#[test]
fn distribute_keys_fails_where_rooms_are_short() {
    let mut rng = rand::thread_rng();
    let mut state = two_layers();
    assert_eq!(state.distribute_keys(3, 3, &mut rng), Err(GenerateError::NoKeyRoom));
    assert!(state.pos_list().iter().all(|p| state.node_map().get_node(*p).unwrap().key.is_none()));
    // the start room never counts
    let mut root = GeneratorState::root(3, 3, Pos(1, 1));
    assert_eq!(root.distribute_keys(1, 1, &mut rng), Err(GenerateError::NoKeyRoom));
}

#[test]
fn placed_neighbours_are_the_rooms_next_to_a_cell() {
    let state = two_layers();
    assert_eq!(sorted(state.placed_neighbours(Pos(0, 0))), vec![(0, 1)]);
    assert_eq!(sorted(state.placed_neighbours(Pos(1, 1))), vec![(0, 1), (1, 2)]);
    assert_eq!(sorted(state.placed_neighbours(Pos(2, 0))), vec![]);
    assert_eq!(sorted(state.placed_neighbours(Pos(2, 2))), vec![(1, 2)]);
}

#[test]
fn next_state_from_the_root() {
    let mut rng = rand::thread_rng();
    let mut done = 0;
    for _ in 0..200 {
        let root = GeneratorState::root(5, 5, Pos(2, 2));
        let next = match root.generate_next_state(&mut rng) {
            Ok(next) => next,
            Err(e) => {
                // more rooms were asked for than the start room has cells next to it
                assert_eq!(e, GenerateError::NoSpace);
                continue;
            }
        };
        done += 1;
        assert_eq!(next.layer(), 1);
        assert_eq!(next.amount(), 4);
        assert_eq!(next.pos_list()[0], Pos(2, 2));
        assert_eq!(sorted(next.pos_list()[1..].to_vec()), vec![(1, 2), (2, 1), (2, 3), (3, 2)]);
        for pos in next.pos_list().iter().skip(1) {
            let node = next.node_map().get_node(*pos).unwrap();
            assert_eq!(node.layer, 1);
            assert_eq!(node.key, None);
        }
        assert_eq!(next.node_map().connection_count(), 4);
        for conn in next.node_map().connections() {
            assert_eq!(conn.state, ConnectState::Open);
        }
        // the root is untouched
        assert_eq!(root.pos_list().len(), 1);
        assert_eq!(root.node_map().connection_count(), 0);
    }
    assert!(done > 0);
}

#[test]
fn next_state_fails_without_space() {
    let mut rng = rand::thread_rng();
    let root = GeneratorState::root(1, 1, Pos(0, 0));
    assert!(matches!(root.generate_next_state(&mut rng), Err(GenerateError::NoSpace)));
    // three free cells cannot take four rooms
    let small = GeneratorState::root(2, 2, Pos(0, 0));
    assert!(matches!(small.generate_next_state(&mut rng), Err(GenerateError::NoSpace)));
    // a start room at the edge has three cells next to it, whatever the grid
    for _ in 0..20 {
        let edge = GeneratorState::root(9, 9, Pos(0, 4));
        assert!(matches!(edge.generate_next_state(&mut rng), Err(GenerateError::NoSpace)));
        let narrow = GeneratorState::root(9, 2, Pos(1, 4));
        assert!(matches!(narrow.generate_next_state(&mut rng), Err(GenerateError::NoSpace)));
    }
}

#[test]
fn second_layer_gets_one_key_for_each_lock() {
    let mut rng = rand::thread_rng();
    let (_, first) = first_layer(&mut rng);
    let mut second = first.clone();
    second.begin_layer(4);
    for pos in [Pos(0, 2), Pos(4, 2), Pos(2, 0), Pos(2, 4)] {
        second.place(pos);
    }
    let locked = second.generate_connections(5);
    assert_eq!(locked, 4);
    assert_eq!(second.distribute_keys(5, locked, &mut rng), Ok(()));
    let map = second.node_map();
    let locks = map.connections().iter().filter(|c| c.state == ConnectState::Locked).count();
    let keys = second.pos_list().iter().filter(|p| map.get_node(**p).unwrap().key == Some(2)).count();
    assert_eq!(locks, 4);
    assert_eq!(keys, 4);
    assert_eq!(map.get_node(Pos(2, 2)).unwrap().key, None);
    for pos in second.pos_list() {
        let node = map.get_node(*pos).unwrap();
        assert_eq!(node.key.is_some(), node.layer == 1);
    }
}

#[test]
fn second_layer_fails_or_keeps_keys_and_locks_even() {
    let mut rng = rand::thread_rng();
    let (_, first) = first_layer(&mut rng);
    for _ in 0..100 {
        match first.generate_next_state(&mut rng) {
            Ok(second) => {
                let map = second.node_map();
                let locks = map.connections().iter().filter(|c| c.state == ConnectState::Locked).count();
                let keys = second.pos_list().iter().filter(|p| map.get_node(**p).unwrap().key == Some(2)).count();
                assert!(locks >= 4);
                assert_eq!(keys, locks);
            }
            // a room at a corner of the first layer lies next to two of its rooms
            Err(e) => assert_eq!(e, GenerateError::NoKeyRoom),
        }
    }
}

#[test]
fn final_state_from_the_root() {
    let mut rng = rand::thread_rng();
    for _ in 0..30 {
        let root = GeneratorState::root(3, 3, Pos(0, 0));
        let last = root.generate_final_state(&mut rng).unwrap();
        assert_eq!(last.layer(), 1);
        assert_eq!(last.amount(), 1);
        assert_eq!(last.pos_list().len(), 2);
        let end = last.pos_list()[1];
        assert!(end == Pos(0, 1) || end == Pos(1, 0));
        let map = last.node_map();
        assert_eq!(map.get_node(end), Some(&Node { layer: 1, key: None }));
        assert_eq!(map.get_node(Pos(0, 0)), Some(&Node { layer: 0, key: Some(1) }));
        assert_eq!(map.connection_count(), 1);
        assert_eq!(map.get_connection(Line(Pos(0, 0), end)).map(|c| c.state), Some(ConnectState::Locked));
    }
}

#[test]
fn final_state_fails_on_a_full_grid() {
    let mut rng = rand::thread_rng();
    let root = GeneratorState::root(1, 1, Pos(0, 0));
    assert!(matches!(root.generate_final_state(&mut rng), Err(GenerateError::NoEndSpace)));
}

#[test]
fn into_map_hands_out_the_map() {
    let state = two_layers();
    let map = state.into_map();
    assert_eq!(map.get_node(Pos(0, 2)), Some(&Node { layer: 2, key: None }));
    assert_eq!(map.connection_count(), 2);
}

#[test]
fn error_texts() {
    assert_eq!(GenerateError::RetriesExhausted.message(), "Failed to generate after 10 retries");
    assert_eq!(GenerateError::NoSpace.message(), "No available spaces!");
    assert_eq!(GenerateError::NoKeyRoom.message(), "Not enough rooms left to hold the keys");
    assert_eq!(GenerateError::NoEndSpace.message(), "No available space for the final room");
    assert_eq!(GenerateError::TooManyLayers.message(), "Too many layers to number the final one");
    assert_eq!(GenerateError::GridTooLarge.message(), "Too many cells to hold the grid");
}

#[test]
fn wiring_adds_nothing_between_earlier_rooms() {
    // the first layer is left unwired, so that earlier rooms lie next to each other unjoined
    let mut state = GeneratorState::root(3, 3, Pos(1, 1));
    state.begin_layer(2);
    state.place(Pos(0, 1));
    state.place(Pos(0, 0));
    state.begin_layer(1);
    state.place(Pos(1, 0));
    let locked = state.generate_connections(3);
    assert_eq!(locked, 1);
    let map = state.node_map();
    assert_eq!(map.connection_count(), 2);
    for conn in map.connections() {
        assert!(conn.line.0 == Pos(1, 0) || conn.line.1 == Pos(1, 0));
    }
    assert_eq!(map.get_connection(Line(Pos(1, 0), Pos(0, 0))).map(|c| c.state), Some(ConnectState::Locked));
    assert_eq!(map.get_connection(Line(Pos(1, 0), Pos(1, 1))).map(|c| c.state), Some(ConnectState::Shortcut));
    assert!(map.get_connection(Line(Pos(1, 1), Pos(0, 1))).is_none());
    assert!(map.get_connection(Line(Pos(0, 0), Pos(0, 1))).is_none());
}

#[test]
fn settle_puts_a_new_snapshot_on_top_and_keeps_the_retries() {
    let mut rng = rand::thread_rng();
    let (root, first) = first_layer(&mut rng);
    let mut stack = vec![root];
    assert_eq!(settle(&mut stack, 7, Ok(first)), 7);
    assert_eq!(stack.len(), 2);
    assert_eq!(stack[0].layer(), 0);
    assert_eq!(stack[1].layer(), 1);
    assert_eq!(stack[1].pos_list()[0], Pos(2, 2));
}

#[test]
fn settle_falls_back_by_one_snapshot_on_a_failure() {
    let mut rng = rand::thread_rng();
    let (root, first) = first_layer(&mut rng);
    let second = first.clone();
    let mut stack = vec![root, first, second];
    assert_eq!(settle(&mut stack, 10, Err(GenerateError::NoSpace)), 9);
    assert_eq!(stack.len(), 2);
    assert_eq!(stack[1].layer(), 1);
    assert_eq!(settle(&mut stack, 9, Err(GenerateError::NoKeyRoom)), 8);
    assert_eq!(stack.len(), 1);
    assert_eq!(stack[0].layer(), 0);
    assert_eq!(stack[0].pos_list(), &vec![Pos(2, 2)]);
}

#[test]
fn settle_stays_at_the_first_snapshot_and_still_counts_the_retry() {
    let root = GeneratorState::root(1, 1, Pos(0, 0));
    let mut stack = vec![root];
    assert_eq!(settle(&mut stack, 10, Err(GenerateError::NoSpace)), 9);
    assert_eq!(stack.len(), 1);
    assert_eq!(settle(&mut stack, 0, Err(GenerateError::NoSpace)), -1);
    assert_eq!(stack.len(), 1);
    assert_eq!(stack[0].pos_list(), &vec![Pos(0, 0)]);
}
