use lockgrid::node::Node;
use lockgrid::node_map::NodeMap;
use lockgrid::pos::{ConnectState, Connection, Line, Pos};

#[test]
fn new_map_is_empty() {
    let map = NodeMap::with_size(4, 3);
    assert_eq!(map.width(), 4);
    assert_eq!(map.height(), 3);
    assert_eq!(map.connection_count(), 0);
    for row in 0..3 {
        for col in 0..4 {
            assert_eq!(map.get_node(Pos(row, col)), None);
        }
    }
}

#[test]
fn map_without_cells_holds_nothing() {
    let map = NodeMap::with_size(0, 0);
    assert_eq!(map.get_node(Pos(0, 0)), None);
    let flat = NodeMap::with_size(5, 0);
    assert_eq!(flat.get_node(Pos(0, 0)), None);
    assert_eq!(flat.get_node(Pos(0, 4)), None);
}

#[test]
fn set_room_then_get_it() {
    let mut map = NodeMap::with_size(4, 3);
    map.set_node(Pos(2, 3), Node::with_layer(1));
    assert_eq!(map.get_node(Pos(2, 3)), Some(&Node { layer: 1, key: None }));
    assert_eq!(map.get_node(Pos(2, 2)), None);
    assert_eq!(map.get_node(Pos(0, 0)), None);
}

#[test]
fn set_room_touches_no_other_cell() {
    let mut map = NodeMap::with_size(3, 3);
    map.set_node(Pos(1, 1), Node::with_layer(4));
    for row in 0..3 {
        for col in 0..3 {
            if (row, col) != (1, 1) {
                assert_eq!(map.get_node(Pos(row, col)), None);
            }
        }
    }
}

#[test]
fn set_room_overwrites() {
    let mut map = NodeMap::with_size(2, 2);
    map.set_node(Pos(0, 1), Node::with_layer(1));
    map.set_node(Pos(0, 1), Node::with_layer(2).with_key(3));
    assert_eq!(map.get_node(Pos(0, 1)), Some(&Node { layer: 2, key: Some(3) }));
}

#[test]
fn get_room_off_the_grid_is_nothing() {
    let mut map = NodeMap::with_size(3, 2);
    for row in 0..2 {
        for col in 0..3 {
            map.set_node(Pos(row, col), Node::with_layer(1));
        }
    }
    assert_eq!(map.get_node(Pos(-1, 0)), None);
    assert_eq!(map.get_node(Pos(0, -1)), None);
    assert_eq!(map.get_node(Pos(2, 0)), None);
    assert_eq!(map.get_node(Pos(0, 3)), None);
    assert_eq!(map.get_node(Pos(1, 3)), None);
    assert_eq!(map.get_node(Pos(1, -1)), None);
    assert_eq!(map.get_node(Pos(isize::MAX, isize::MAX)), None);
    assert_eq!(map.get_node(Pos(isize::MIN, isize::MIN)), None);
}

#[test]
fn a_column_past_the_row_end_is_not_the_next_row() {
    let mut map = NodeMap::with_size(3, 3);
    map.set_node(Pos(1, 0), Node::with_layer(1));
    assert_eq!(map.get_node(Pos(0, 3)), None);
    map.set_node(Pos(0, 2), Node::with_layer(2));
    assert_eq!(map.get_node(Pos(1, -1)), None);
}

#[test]
fn connection_is_found_in_both_directions() {
    let mut map = NodeMap::with_size(3, 3);
    let a = Pos(0, 0);
    let b = Pos(0, 1);
    let conn = Connection { line: Line(a, b), state: ConnectState::Locked };
    map.add_connection(conn);
    assert!(matches!(map.get_connection(Line(a, b)), Some(c) if *c == conn));
    assert!(matches!(map.get_connection(Line(b, a)), Some(c) if *c == conn));
    assert!(map.get_connection(Line(a, Pos(1, 0))).is_none());
    assert!(map.get_connection(Line(b, Pos(0, 2))).is_none());
}

#[test]
fn lookup_in_a_map_without_connections_finds_nothing() {
    let map = NodeMap::with_size(3, 3);
    assert!(map.get_connection(Line(Pos(0, 0), Pos(0, 1))).is_none());
}

#[test]
fn add_connection_does_not_look_for_duplicates() {
    let mut map = NodeMap::with_size(3, 3);
    let a = Pos(0, 0);
    let b = Pos(0, 1);
    map.add_connection(Connection { line: Line(a, b), state: ConnectState::Open });
    map.add_connection(Connection { line: Line(b, a), state: ConnectState::Locked });
    assert_eq!(map.connection_count(), 2);
    assert_eq!(map.connections().len(), 2);
}

#[test]
fn lookup_returns_the_first_match() {
    let mut map = NodeMap::with_size(3, 3);
    let a = Pos(0, 0);
    let b = Pos(0, 1);
    map.add_connection(Connection { line: Line(Pos(1, 1), Pos(1, 2)), state: ConnectState::Shortcut });
    map.add_connection(Connection { line: Line(a, b), state: ConnectState::Open });
    map.add_connection(Connection { line: Line(b, a), state: ConnectState::Locked });
    assert_eq!(map.get_connection(Line(b, a)).map(|c| c.state), Some(ConnectState::Open));
    assert_eq!(map.get_connection(Line(Pos(1, 2), Pos(1, 1))).map(|c| c.state), Some(ConnectState::Shortcut));
}

#[test]
fn adding_a_connection_leaves_the_rooms() {
    let mut map = NodeMap::with_size(2, 2);
    map.set_node(Pos(0, 0), Node::with_layer(1));
    map.add_connection(Connection { line: Line(Pos(0, 0), Pos(0, 1)), state: ConnectState::Open });
    assert_eq!(map.get_node(Pos(0, 0)), Some(&Node::with_layer(1)));
    assert_eq!(map.get_node(Pos(0, 1)), None);
}

#[test]
fn reads_give_the_same_result_every_time() {
    let mut map = NodeMap::with_size(3, 3);
    map.set_node(Pos(1, 1), Node::with_layer(2).with_key(3));
    map.add_connection(Connection { line: Line(Pos(1, 1), Pos(1, 2)), state: ConnectState::Open });
    for _ in 0..5 {
        assert_eq!(map.get_node(Pos(1, 1)), Some(&Node { layer: 2, key: Some(3) }));
        assert_eq!(map.get_node(Pos(0, 0)), None);
        assert_eq!(map.get_connection(Line(Pos(1, 2), Pos(1, 1))).map(|c| c.state), Some(ConnectState::Open));
        assert!(map.get_connection(Line(Pos(0, 0), Pos(0, 1))).is_none());
    }
}

#[test]
fn clone_holds_the_same_and_is_independent() {
    let mut map = NodeMap::with_size(3, 2);
    map.set_node(Pos(1, 2), Node::with_layer(1));
    map.add_connection(Connection { line: Line(Pos(1, 2), Pos(1, 1)), state: ConnectState::Open });
    let mut copy = map.clone();
    assert_eq!(copy.width(), 3);
    assert_eq!(copy.height(), 2);
    assert_eq!(copy.get_node(Pos(1, 2)), Some(&Node::with_layer(1)));
    assert_eq!(copy.connection_count(), 1);
    copy.set_node(Pos(0, 0), Node::with_layer(2));
    copy.add_connection(Connection { line: Line(Pos(0, 0), Pos(0, 1)), state: ConnectState::Locked });
    assert_eq!(map.get_node(Pos(0, 0)), None);
    assert_eq!(map.connection_count(), 1);
}
