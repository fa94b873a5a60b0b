use lockgrid::generator::GeneratorState;
use lockgrid::node::Node;
use lockgrid::node_map::NodeMap;
use lockgrid::pos::{ConnectState, Pos};

fn rooms_of(map: &NodeMap) -> Vec<(Pos, Node)> {
    let mut rooms = Vec::new();
    for row in 0..map.height() {
        for col in 0..map.width() {
            if let Some(node) = map.get_node(Pos(row, col)) {
                rooms.push((Pos(row, col), *node));
            }
        }
    }
    rooms
}

fn next_to(a: Pos, b: Pos) -> bool {
    (a.0 == b.0 && (a.1 - b.1).abs() == 1) || (a.1 == b.1 && (a.0 - b.0).abs() == 1)
}

/// The rooms that can be walked to from the start room through rooms of the
/// layers up to `limit`, with the keys found on the way.
fn walk(map: &NodeMap, rooms: &[(Pos, Node)], limit: u8) -> Vec<Pos> {
    let layer = |p: Pos| map.get_node(p).unwrap().layer;
    let start = rooms.iter().find(|(_, n)| n.layer == 0).unwrap().0;
    let mut seen = vec![start];
    loop {
        let keys: Vec<u8> = seen.iter().filter_map(|p| map.get_node(*p).unwrap().key).collect();
        let mut grown = false;
        for conn in map.connections() {
            for (a, b) in [(conn.line.0, conn.line.1), (conn.line.1, conn.line.0)] {
                if !seen.contains(&a) || seen.contains(&b) || layer(b) > limit {
                    continue;
                }
                let far = layer(a).max(layer(b));
                let passable = match conn.state {
                    ConnectState::Open => true,
                    ConnectState::Locked => keys.contains(&far),
                    ConnectState::Shortcut => false,
                };
                if passable {
                    seen.push(b);
                    grown = true;
                }
            }
        }
        if !grown {
            return seen;
        }
    }
}

fn check_finished(map: &NodeMap, width: isize, height: isize, layers: u8) {
    assert_eq!(map.width(), width);
    assert_eq!(map.height(), height);
    let rooms = rooms_of(map);
    let top = layers + 1;
    let layer = |p: Pos| map.get_node(p).unwrap().layer;

    // every room lies on the grid, and nothing lies off it
    assert_eq!(map.get_node(Pos(-1, 0)), None);
    assert_eq!(map.get_node(Pos(0, width)), None);
    assert_eq!(map.get_node(Pos(height, 0)), None);

    // the layers
    assert_eq!(rooms.iter().filter(|(_, n)| n.layer == 0).count(), 1);
    assert_eq!(rooms.iter().filter(|(_, n)| n.layer == top).count(), 1);
    assert!(rooms.iter().all(|(_, n)| n.layer <= top));
    for l in 1..top {
        let count = rooms.iter().filter(|(_, n)| n.layer == l).count();
        assert!((4..=7).contains(&count));
    }

    // no connection dangles, none joins rooms that are no neighbours, none is double
    let conns = map.connections();
    for (i, conn) in conns.iter().enumerate() {
        assert!(map.get_node(conn.line.0).is_some());
        assert!(map.get_node(conn.line.1).is_some());
        assert!(next_to(conn.line.0, conn.line.1));
        for other in conns.iter().skip(i + 1) {
            assert!(conn.line != other.line);
        }
    }

    // the terminal room
    let end = rooms.iter().find(|(_, n)| n.layer == top).unwrap().0;
    let at_end: Vec<_> = conns.iter().filter(|c| c.line.0 == end || c.line.1 == end).collect();
    assert_eq!(at_end.len(), 1);
    assert_eq!(at_end[0].state, ConnectState::Locked);
    assert_eq!(map.get_node(end).unwrap().key, None);

    // the other connections go by the layers of their rooms
    for conn in conns.iter().filter(|c| c.line.0 != end && c.line.1 != end) {
        let a = layer(conn.line.0);
        let b = layer(conn.line.1);
        let expected = if a == b {
            ConnectState::Open
        } else if a.abs_diff(b) == 1 {
            if a.max(b) >= 2 {
                ConnectState::Locked
            } else {
                ConnectState::Open
            }
        } else {
            ConnectState::Shortcut
        };
        assert_eq!(conn.state, expected);
    }
    for (p, _) in &rooms {
        for (q, _) in &rooms {
            if next_to(*p, *q) && *p != end && *q != end {
                assert!(map.get_connection(lockgrid::pos::Line(*p, *q)).is_some());
            }
        }
    }

    // keys lie in earlier layers, as many as there are locks
    for (_, node) in &rooms {
        if let Some(key) = node.key {
            assert!(node.layer < key && key <= top);
        }
    }
    for l in 0..=top {
        let keys = rooms.iter().filter(|(_, n)| n.key == Some(l)).count();
        let locks = conns
            .iter()
            .filter(|c| c.state == ConnectState::Locked && layer(c.line.0).max(layer(c.line.1)) == l)
            .count();
        assert_eq!(keys, locks);
    }
    let holders: Vec<_> = rooms.iter().filter(|(_, n)| n.key == Some(top)).collect();
    assert_eq!(holders.len(), 1);
    assert_eq!(holders[0].1.layer, top - 1);

    // every room can be reached within its own layers
    for (pos, node) in &rooms {
        assert!(walk(map, &rooms, node.layer).contains(pos));
    }
}

#[test]
fn generate_five_by_five_with_one_layer() {
    let mut finished = 0;
    for _ in 0..300 {
        let map = match NodeMap::generate(5, 5, 1) {
            Ok(map) => map,
            Err(text) => {
                // the start room lay at the edge, or too many rooms were asked for every time
                assert_eq!(text, "Failed to generate after 10 retries");
                continue;
            }
        };
        finished += 1;
        check_finished(&map, 5, 5, 1);
        let rooms = rooms_of(&map);
        assert_eq!(rooms.iter().filter(|(_, n)| n.layer == 0).count(), 1);
        let first = rooms.iter().filter(|(_, n)| n.layer == 1).count();
        assert!((4..=7).contains(&first));
        assert_eq!(rooms.iter().filter(|(_, n)| n.layer == 2).count(), 1);
        assert_eq!(rooms.len(), first + 2);
        let start = rooms.iter().find(|(_, n)| n.layer == 0).unwrap().0;
        let reached = walk(&map, &rooms, 1);
        for (pos, node) in &rooms {
            if node.layer == 1 {
                assert!(reached.contains(pos));
                assert!(next_to(start, *pos));
            }
        }
        let locks = map.connections().iter().filter(|c| c.state == ConnectState::Locked).count();
        assert_eq!(locks, 1);
        let keys: Vec<u8> = rooms.iter().filter_map(|(_, n)| n.key).collect();
        assert_eq!(keys, vec![2]);
    }
    assert!(finished > 0);
}

#[test]
fn generate_on_a_single_cell_runs_out_of_retries() {
    for _ in 0..5 {
        let result = NodeMap::generate(1, 1, 3);
        assert_eq!(result.err(), Some("Failed to generate after 10 retries".to_string()));
    }
}

#[test]
fn generate_on_a_single_cell_without_layers_finds_no_final_cell() {
    let result = NodeMap::generate(1, 1, 0);
    assert_eq!(result.err(), Some("No available space for the final room".to_string()));
}

#[test]
fn generate_with_too_many_layers_fails() {
    let result = NodeMap::generate(40, 40, 255);
    assert_eq!(result.err(), Some("Too many layers to number the final one".to_string()));
}

#[test]
fn generate_without_layers_always_succeeds() {
    for (width, height) in [(2, 1), (1, 2), (2, 2), (3, 7)] {
        for _ in 0..10 {
            let map = NodeMap::generate(width, height, 0).unwrap();
            check_finished(&map, width, height, 0);
            assert_eq!(rooms_of(&map).len(), 2);
        }
    }
}

#[test]
fn generate_too_small_for_a_layer_runs_out_of_retries() {
    let result = NodeMap::generate(2, 2, 1);
    assert_eq!(result.err(), Some("Failed to generate after 10 retries".to_string()));
}

#[test]
fn generate_on_a_narrow_grid_runs_out_of_retries() {
    for (width, height) in [(9, 2), (2, 9), (30, 1), (1, 30)] {
        for layers in [1, 3] {
            let result = NodeMap::generate(width, height, layers);
            assert_eq!(result.err(), Some("Failed to generate after 10 retries".to_string()));
        }
    }
}

#[test]
fn generate_larger_maps() {
    for layers in [2, 4] {
        for _ in 0..60 {
            match NodeMap::generate(12, 10, layers) {
                Ok(map) => check_finished(&map, 12, 10, layers),
                Err(text) => assert_eq!(text, "Failed to generate after 10 retries"),
            }
        }
    }
}

#[test]
fn two_layers_closed_off() {
    let mut rng = rand::thread_rng();
    for _ in 0..30 {
        let mut state = GeneratorState::root(5, 5, Pos(2, 2));
        state.begin_layer(4);
        for pos in [Pos(1, 2), Pos(3, 2), Pos(2, 1), Pos(2, 3)] {
            state.place(pos);
        }
        assert_eq!(state.generate_connections(1), 4);
        state.begin_layer(4);
        for pos in [Pos(0, 2), Pos(4, 2), Pos(2, 0), Pos(2, 4)] {
            state.place(pos);
        }
        let locked = state.generate_connections(5);
        assert_eq!(locked, 4);
        assert_eq!(state.distribute_keys(5, locked, &mut rng), Ok(()));
        let last = state.generate_final_state(&mut rng).unwrap();
        assert_eq!(last.layer(), 3);
        let map = last.into_map();
        check_finished(&map, 5, 5, 2);
        assert_eq!(rooms_of(&map).len(), 10);
    }
}

#[test]
fn generate_fills_a_tight_grid_or_fails_cleanly() {
    for _ in 0..60 {
        match NodeMap::generate(3, 3, 2) {
            Ok(map) => check_finished(&map, 3, 3, 2),
            Err(text) => assert!(
                text == "Failed to generate after 10 retries" || text == "No available space for the final room"
            ),
        }
    }
}

#[test]
fn generate_with_a_given_random_source() {
    let mut rng = rand::thread_rng();
    let map = NodeMap::generate_with(&mut rng, 6, 6, 0).unwrap();
    check_finished(&map, 6, 6, 0);
    match NodeMap::generate_with(&mut rng, 6, 6, 1) {
        Ok(map) => check_finished(&map, 6, 6, 1),
        Err(e) => assert_eq!(e, lockgrid::generator::GenerateError::RetriesExhausted),
    }
    assert_eq!(
        NodeMap::generate_with(&mut rng, 1, 1, 2).err(),
        Some(lockgrid::generator::GenerateError::RetriesExhausted)
    );
}

#[test]
fn reads_on_a_finished_map_repeat() {
    let map = NodeMap::generate(5, 5, 0).unwrap();
    let rooms = rooms_of(&map);
    assert_eq!(rooms, rooms_of(&map));
    for (p, _) in &rooms {
        for (q, _) in &rooms {
            let line = lockgrid::pos::Line(*p, *q);
            let first = map.get_connection(line).copied();
            let second = map.get_connection(line).copied();
            assert!(first == second);
        }
    }
}

#[test]
fn generate_on_a_grid_beyond_counting_fails() {
    let result = NodeMap::generate(isize::MAX, isize::MAX, 1);
    assert_eq!(result.err(), Some("Too many cells to hold the grid".to_string()));
    let result = NodeMap::generate(isize::MAX, 3, 0);
    assert_eq!(result.err(), Some("Too many cells to hold the grid".to_string()));
    // the number of layers is looked at first
    let result = NodeMap::generate(isize::MAX, isize::MAX, 255);
    assert_eq!(result.err(), Some("Too many layers to number the final one".to_string()));
}
