//! Closing a map off with the terminal room, and why the map is then
//! finished.

use crate::layers::{
    count_ok, counts_ok, edges_unique, keys_for, layer_of, layer_sized, lemma_adjacent_steps,
    lemma_count_frame, lemma_count_push, rooms_of_layer, wire_state,
};
use crate::node::Node;
use crate::node_map::{lemma_lookup, lemma_lookup_push, lookup};
use crate::pos::{Connection, ConnectState, Line, Pos};
use crate::snapshot::{is_available, snapshot_ok, StateView};
use crate::solvable::{
    all_reachable, ends_in, keeps, lemma_snapshot_reachable, lemma_walk_extends, lemma_walk_kept,
    lemma_walk_widens, no_dangling, only_room_of, reachable, solved, walk_ok,
};
use vstd::prelude::*;

verus! {

/// `v` is `v0` closed off: one terminal room of a layer of its own at the end
/// of the placement order, on a free cell next to some room; one lock from it
/// to `neighbour`, a room next to it; and the terminal layer's key in
/// `holder`, a room of the latest layer of `v0` that held no key.
pub open spec fn sealed(v0: StateView, v: StateView, neighbour: Pos, holder: Pos) -> bool {
    let end = v.order.last();
    &&& v.layer == v0.layer + 1
    &&& v.layer <= u8::MAX
    &&& v.amount == 1
    &&& v.order == v0.order.push(end)
    &&& is_available(v0.map, v0.order, 0, v0.order.len() as int, end)
    &&& v.map.width == v0.map.width
    &&& v.map.height == v0.map.height
    &&& v0.map.rooms.dom().contains(neighbour)
    &&& neighbour.adjacent(end)
    &&& v.map.connections == v0.map.connections.push(
        Connection { line: Line(end, neighbour), state: ConnectState::Locked },
    )
    &&& exists|x: int| v0.order.len() - v0.amount <= x < v0.order.len() && #[trigger] v0.order[x] == holder
    &&& v0.map.rooms[holder].key is None
    &&& v.map.rooms == v0.map.rooms.insert(end, Node { layer: v.layer as u8, key: None }).insert(
        holder,
        Node { layer: v0.map.rooms[holder].layer, key: Some(v.layer as u8) },
    )
}

/// What closing off leaves as it was: the rooms of `v0` with their layers
/// and keys, but for the key that the holder got, and what a lookup finds.
pub proof fn lemma_sealed_basics(v0: StateView, v: StateView, neighbour: Pos, holder: Pos)
    requires
        snapshot_ok(v0),
        sealed(v0, v, neighbour, holder),
    ensures
        !v0.map.rooms.dom().contains(v.order.last()),
        v0.map.rooms.dom().contains(holder),
        layer_of(v0.map, holder) == v0.layer,
        v.map.rooms.dom().contains(v.order.last()),
        v.map.rooms[v.order.last()] == (Node { layer: v.layer as u8, key: None }),
        forall|p: Pos| v.map.rooms.dom().contains(p) <==> v0.map.rooms.dom().contains(p) || p == v.order.last(),
        forall|p: Pos| #[trigger]
            v0.map.rooms.dom().contains(p) ==> v.map.rooms[p].layer == v0.map.rooms[p].layer && v.map.rooms[p].key == (
            if p == holder {
                Some(v.layer as u8)
            } else {
                v0.map.rooms[p].key
            }),
        forall|p: Pos| #[trigger] v0.map.rooms.dom().contains(p) ==> 0 <= layer_of(v0.map, p) <= v0.layer,
        forall|i: int|
            0 <= i < v0.map.connections.len() ==> !(#[trigger] v0.map.connections[i]).line.touches(v.order.last()),
        no_dangling(v0.map),
        keeps(v0.map, v.map),
{
    let end = v.order.last();
    assert forall|e: Line| #[trigger] lookup(v0.map.connections, e) is Some implies lookup(v.map.connections, e)
        == lookup(v0.map.connections, e) by {
        lemma_lookup_push(
            v0.map.connections,
            Connection { line: Line(end, neighbour), state: ConnectState::Locked },
            e,
        );
    }
}

/// In a map that is closed off every connection joins two neighbouring
/// rooms, no pair twice; all but the terminal lock go by the layers of their
/// rooms; and any two neighbouring rooms below the terminal layer are joined.
pub proof fn lemma_sealed_wired(v0: StateView, v: StateView, neighbour: Pos, holder: Pos)
    requires
        snapshot_ok(v0),
        sealed(v0, v, neighbour, holder),
    ensures
        no_dangling(v.map),
        edges_unique(v.map.connections),
        forall|i: int|
            0 <= i < v.map.connections.len() ==> (#[trigger] v.map.connections[i]).line.0.adjacent(
                v.map.connections[i].line.1,
            ),
        forall|i: int|
            0 <= i < v.map.connections.len() - 1 ==> (#[trigger] v.map.connections[i]).state == wire_state(
                layer_of(v.map, v.map.connections[i].line.0),
                layer_of(v.map, v.map.connections[i].line.1),
            ),
        forall|p: Pos, q: Pos|
            v.map.rooms.dom().contains(p) && v.map.rooms.dom().contains(q) && p.adjacent(q) && layer_of(v.map, p)
                < v.layer && layer_of(v.map, q) < v.layer ==> #[trigger] lookup(v.map.connections, Line(p, q)) is Some,
{
    lemma_sealed_basics(v0, v, neighbour, holder);
    let end = v.order.last();
    let conns = v.map.connections;
    let n = v0.map.connections.len() as int;
    assert forall|i: int| 0 <= i < conns.len() implies v.map.rooms.dom().contains((#[trigger] conns[i]).line.0)
        && v.map.rooms.dom().contains(conns[i].line.1) && conns[i].line.0.adjacent(conns[i].line.1) by {
        if i >= n {
            lemma_adjacent_steps(end, neighbour);
        }
    }
    assert forall|p: Pos, q: Pos|
        v.map.rooms.dom().contains(p) && v.map.rooms.dom().contains(q) && p.adjacent(q) && layer_of(v.map, p) < v.layer
            && layer_of(v.map, q) < v.layer implies #[trigger] lookup(conns, Line(p, q)) is Some by {
        assert(lookup(v0.map.connections, Line(p, q)) is Some);
    }
}

/// In a map that is closed off every layer has as many keys as locks into
/// it, and the terminal layer's one key lies in the holder.
pub proof fn lemma_sealed_counts(v0: StateView, v: StateView, neighbour: Pos, holder: Pos)
    requires
        snapshot_ok(v0),
        sealed(v0, v, neighbour, holder),
    ensures
        counts_ok(v.map),
        keys_for(v.map, v.layer as int).len() == 1,
        forall|h: Pos| #[trigger] keys_for(v.map, v.layer as int).contains(h) ==> h == holder,
{
    lemma_sealed_basics(v0, v, neighbour, holder);
    let end = v.order.last();
    let top = v.layer as int;
    let last = Connection { line: Line(end, neighbour), state: ConnectState::Locked };
    assert(keys_for(v.map, top) =~= set![holder]);
    assert forall|k: int| #[trigger] count_ok(v.map, k) by {
        lemma_count_push(v.map.rooms, v0.map.connections, last, k);
        lemma_count_frame(v.map.rooms, v0.map.rooms, v0.map.connections, k);
        assert(count_ok(v0.map, k));
        if k == top {
            assert(keys_for(v0.map, k) =~= Set::<Pos>::empty());
        } else {
            assert(keys_for(v.map, k) =~= keys_for(v0.map, k));
        }
    }
}

/// In a map that is closed off every room can be reached, the terminal room
/// too.
pub proof fn lemma_sealed_reachable(v0: StateView, v: StateView, neighbour: Pos, holder: Pos)
    requires
        snapshot_ok(v0),
        sealed(v0, v, neighbour, holder),
    ensures
        all_reachable(v.map),
{
    lemma_sealed_basics(v0, v, neighbour, holder);
    let end = v.order.last();
    let top = v.layer;
    assert forall|p: Pos| #[trigger] v0.map.rooms.dom().contains(p) implies reachable(v.map, p) by {
        let i = choose|i: int| 0 <= i < v0.order.len() && v0.order[i] == p;
        lemma_snapshot_reachable(v0, i);
        let path = choose|path: Seq<Pos>| #[trigger] walk_ok(v0.map, path, layer_of(v0.map, p) as nat) && path.last() == p;
        lemma_walk_kept(v0.map, v.map, path, layer_of(v0.map, p) as nat);
    }
    // the terminal room
    let near_path = choose|path: Seq<Pos>| #[trigger]
        walk_ok(v.map, path, layer_of(v.map, neighbour) as nat) && path.last() == neighbour;
    let key_path = choose|path: Seq<Pos>| #[trigger]
        walk_ok(v.map, path, layer_of(v.map, holder) as nat) && path.last() == holder;
    lemma_walk_widens(v.map, near_path, layer_of(v.map, neighbour) as nat, top);
    let last = Connection { line: Line(end, neighbour), state: ConnectState::Locked };
    let e = Line(neighbour, end);
    lemma_lookup(v0.map.connections, e);
    assert(lookup(v0.map.connections, e) is None) by {
        if lookup(v0.map.connections, e) is Some {
            let c = lookup(v0.map.connections, e)->0;
            assert(c.line.touches(end));
        }
    }
    lemma_lookup_push(v0.map.connections, last, e);
    assert(keys_for(v.map, top as int).contains(holder) && key_path.last() == holder);
    lemma_walk_extends(v.map, near_path, top, end);
}

/// A snapshot between two layers that is closed off gives a finished map.
pub proof fn lemma_sealed_solved(v0: StateView, v: StateView, neighbour: Pos, holder: Pos)
    requires
        snapshot_ok(v0),
        sealed(v0, v, neighbour, holder),
    ensures
        solved(v.map, v.layer as int),
{
    lemma_sealed_basics(v0, v, neighbour, holder);
    lemma_sealed_wired(v0, v, neighbour, holder);
    lemma_sealed_counts(v0, v, neighbour, holder);
    lemma_sealed_reachable(v0, v, neighbour, holder);
    let m = v.map;
    let end = v.order.last();
    let start = v0.order[0];
    let top = v.layer as int;
    assert(only_room_of(m, start, 0)) by {
        assert forall|q: Pos| #[trigger] m.rooms.dom().contains(q) implies (layer_of(m, q) == 0 <==> q == start) by {
            if v0.map.rooms.dom().contains(q) {
                let j = choose|j: int| 0 <= j < v0.order.len() && v0.order[j] == q;
                assert(v0.order[j] == q);
            }
        }
    }
    assert(ends_in(m, end, top));
    assert forall|k: int| 1 <= k <= top - 1 implies #[trigger] layer_sized(m, k) by {
        assert(layer_sized(v0.map, k));
        assert(rooms_of_layer(m, k) =~= rooms_of_layer(v0.map, k));
    }
}

} // verus!
