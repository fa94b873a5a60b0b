//! What makes a map solvable: every room can be walked to from the start
//! room, and whoever stands before a lock has passed its key.

use crate::layers::{
    count_ok, counts_ok, edges_unique, far_layer, keys_for, layer_of, layers_sized,
    lemma_count_some, wire_state,
};
use crate::node_map::{lemma_lookup, lookup, MapView, NodeMap};
use crate::pos::{ConnectState, Line, Pos};
use crate::snapshot::{linked_back, snapshot_ok, StateView};
use vstd::prelude::*;

verus! {

/// One may step from `a` to `b` while staying within the layers up to
/// `limit`: the two are joined openly, or by a lock into a layer within the
/// limit whose key is in reach.
pub open spec fn passable(m: MapView, a: Pos, b: Pos, limit: nat) -> bool
    decreases limit, 1nat,
{
    match lookup(m.connections, Line(a, b)) {
        Some(c) => c.state == ConnectState::Open || (c.state == ConnectState::Locked && 0 <= far_layer(m.rooms, c)
            <= limit && key_in_reach(m, far_layer(m.rooms, c) as nat)),
        None => false,
    }
}

/// `path` is a walk that begins in a room of layer zero, stays in rooms of
/// the layers up to `limit`, and takes passable steps only.
pub open spec fn walk_ok(m: MapView, path: Seq<Pos>, limit: nat) -> bool
    decreases limit, 2nat,
{
    &&& path.len() >= 1
    &&& layer_of(m, path[0]) == 0
    &&& forall|i: int|
        0 <= i < path.len() ==> m.rooms.dom().contains(#[trigger] path[i]) && layer_of(m, path[i]) <= limit
    &&& forall|i: int| 0 <= i < path.len() - 1 ==> passable(m, #[trigger] path[i], path[i + 1], limit)
}

/// A key of layer `k` lies in a room of an earlier layer, and a walk that
/// stays within that room's layer leads to it.
pub open spec fn key_in_reach(m: MapView, k: nat) -> bool
    decreases k, 0nat,
{
    exists|h: Pos, path: Seq<Pos>|
        #![trigger keys_for(m, k as int).contains(h), path.last()]
        keys_for(m, k as int).contains(h) && 0 <= layer_of(m, h) < k && walk_ok(m, path, layer_of(m, h) as nat)
            && path.last() == h
}

/// A walk that stays within the layers up to the room's own leads to `p`.
pub open spec fn reachable(m: MapView, p: Pos) -> bool {
    exists|path: Seq<Pos>| #[trigger] walk_ok(m, path, layer_of(m, p) as nat) && path.last() == p
}

/// Every room of the map can be reached.
pub open spec fn all_reachable(m: MapView) -> bool {
    forall|p: Pos| #[trigger] m.rooms.dom().contains(p) ==> reachable(m, p)
}

/// Both ends of every connection are rooms.
pub open spec fn no_dangling(m: MapView) -> bool {
    forall|i: int|
        0 <= i < m.connections.len() ==> m.rooms.dom().contains((#[trigger] m.connections[i]).line.0)
            && m.rooms.dom().contains(m.connections[i].line.1)
}

/// A walk within some layers is a walk within more layers.
pub proof fn lemma_walk_widens(m: MapView, path: Seq<Pos>, limit: nat, wider: nat)
    requires
        walk_ok(m, path, limit),
        limit <= wider,
    ensures
        walk_ok(m, path, wider),
{
}

/// A walk goes on by one passable step.
pub proof fn lemma_walk_extends(m: MapView, path: Seq<Pos>, limit: nat, b: Pos)
    requires
        walk_ok(m, path, limit),
        m.rooms.dom().contains(b),
        layer_of(m, b) <= limit,
        passable(m, path.last(), b, limit),
    ensures
        walk_ok(m, path.push(b), limit),
{
}

/// `m2` has everything that `m` has: its rooms with their layers and keys,
/// and whatever a lookup finds in `m`.
pub open spec fn keeps(m: MapView, m2: MapView) -> bool {
    &&& no_dangling(m)
    &&& forall|p: Pos| #[trigger]
        m.rooms.dom().contains(p) ==> {
            &&& m2.rooms.dom().contains(p)
            &&& m2.rooms[p].layer == m.rooms[p].layer
            &&& m.rooms[p].key is Some ==> m2.rooms[p].key == m.rooms[p].key
        }
    &&& forall|e: Line| #[trigger] lookup(m.connections, e) is Some ==> lookup(m2.connections, e) == lookup(m.connections, e)
}

/// A walk in a map is a walk in any map that keeps what the first has.
pub proof fn lemma_walk_kept(m: MapView, m2: MapView, path: Seq<Pos>, limit: nat)
    requires
        keeps(m, m2),
        walk_ok(m, path, limit),
    ensures
        walk_ok(m2, path, limit),
    decreases limit, 1nat,
{
    assert forall|i: int| 0 <= i < path.len() - 1 implies passable(m2, #[trigger] path[i], path[i + 1], limit) by {
        let e = Line(path[i], path[i + 1]);
        let c = lookup(m.connections, e)->0;
        lemma_lookup(m.connections, e);
        if c.state == ConnectState::Locked {
            lemma_key_kept(m, m2, far_layer(m.rooms, c) as nat);
        }
    }
}

/// A key in reach in a map is in reach in any map that keeps what the first
/// has.
pub proof fn lemma_key_kept(m: MapView, m2: MapView, k: nat)
    requires
        keeps(m, m2),
        key_in_reach(m, k),
    ensures
        key_in_reach(m2, k),
    decreases k, 0nat,
{
    let (h, path) = choose|h: Pos, path: Seq<Pos>|
        #![trigger keys_for(m, k as int).contains(h), path.last()]
        keys_for(m, k as int).contains(h) && 0 <= layer_of(m, h) < k && walk_ok(m, path, layer_of(m, h) as nat)
            && path.last() == h;
    lemma_walk_kept(m, m2, path, layer_of(m, h) as nat);
    assert(keys_for(m2, k as int).contains(h));
}

/// In a snapshot between two layers every room can be reached: each room
/// lies next to a room of the layer before its own, and the key to each lock
/// lies in an earlier layer.
pub proof fn lemma_snapshot_reachable(v: StateView, i: int)
    requires
        snapshot_ok(v),
        0 <= i < v.order.len(),
    ensures
        reachable(v.map, v.order[i]),
    decreases i,
{
    let m = v.map;
    let p = v.order[i];
    let lp = layer_of(m, p) as nat;
    if i == 0 {
        let path = seq![p];
        assert(walk_ok(m, path, lp));
    } else {
        assert(linked_back(m, v.order, i));
        let j = choose|j: int|
            0 <= j < i && (#[trigger] v.order[j]).adjacent(v.order[i]) && layer_of(m, v.order[j]) + 1 == layer_of(
                m,
                v.order[i],
            );
        let q = v.order[j];
        let lq = layer_of(m, q) as nat;
        lemma_snapshot_reachable(v, j);
        let shorter = choose|path: Seq<Pos>| #[trigger] walk_ok(m, path, lq) && path.last() == q;
        lemma_walk_widens(m, shorter, lq, lp);
        let e = Line(q, p);
        lemma_lookup(m.connections, e);
        let c = lookup(m.connections, e)->0;
        let x = choose|x: int| 0 <= x < m.connections.len() && #[trigger] m.connections[x] == c;
        if c.state == ConnectState::Locked {
            let k = far_layer(m.rooms, c);
            lemma_count_some(m.rooms, m.connections, k, x);
            assert(count_ok(m, k));
            let keys = keys_for(m, k);
            let h = keys.choose();
            assert(keys.contains(h));
            let y = choose|y: int| 0 <= y < v.order.len() && v.order[y] == h;
            lemma_snapshot_reachable(v, y);
        }
        lemma_walk_extends(m, shorter, lp, p);
    }
}

/// `p` is a room of layer `k`, and the only one.
pub open spec fn only_room_of(m: MapView, p: Pos, k: int) -> bool {
    &&& m.rooms.dom().contains(p)
    &&& forall|q: Pos| #[trigger] m.rooms.dom().contains(q) ==> (layer_of(m, q) == k <==> q == p)
}

/// The room at `end` closes the map off: it alone has the layer `top` and
/// holds no key; the last connection is a lock and the only connection that
/// touches it; and the one key of layer `top` lies in a room of the layer
/// before.
pub open spec fn ends_in(m: MapView, end: Pos, top: int) -> bool {
    &&& only_room_of(m, end, top)
    &&& m.rooms[end].key is None
    &&& m.connections.len() >= 1
    &&& m.connections.last().state == ConnectState::Locked
    &&& forall|i: int|
        0 <= i < m.connections.len() ==> ((#[trigger] m.connections[i]).line.touches(end) <==> i
            == m.connections.len() - 1)
    &&& keys_for(m, top).len() == 1
    &&& forall|h: Pos| #[trigger] keys_for(m, top).contains(h) ==> layer_of(m, h) == top - 1
}

/// What holds of a finished map whose terminal layer is `top`.
///
/// Every room lies on the grid. Connections join neighbouring rooms, no pair twice, and none dangles. But
/// for the terminal lock, each is what the layers of its two rooms call for,
/// and any two neighbouring rooms below the terminal layer are joined. Every
/// key lies in a room of an earlier layer than the one it opens. Every layer
/// has as many keys as locks into it, and every layer between the start room
/// and the terminal room has as many rooms as a layer places. Every room can
/// be reached. One room has layer zero, and one room closes the map off.
pub open spec fn solved(m: MapView, top: int) -> bool {
    &&& no_dangling(m)
    &&& edges_unique(m.connections)
    &&& forall|i: int|
        0 <= i < m.connections.len() ==> (#[trigger] m.connections[i]).line.0.adjacent(m.connections[i].line.1)
    &&& forall|i: int|
        0 <= i < m.connections.len() - 1 ==> (#[trigger] m.connections[i]).state == wire_state(
            layer_of(m, m.connections[i].line.0),
            layer_of(m, m.connections[i].line.1),
        )
    &&& forall|p: Pos, q: Pos|
        m.rooms.dom().contains(p) && m.rooms.dom().contains(q) && p.adjacent(q) && layer_of(m, p) < top && layer_of(
            m,
            q,
        ) < top ==> #[trigger] lookup(m.connections, Line(p, q)) is Some
    &&& forall|p: Pos| #[trigger]
        m.rooms.dom().contains(p) ==> m.in_bounds(p) && 0 <= layer_of(m, p) <= top && match m.rooms[p].key {
            Some(k) => layer_of(m, p) < k <= top,
            None => true,
        }
    &&& counts_ok(m)
    &&& layers_sized(m, top - 1)
    &&& all_reachable(m)
    &&& exists|start: Pos, end: Pos| #[trigger] only_room_of(m, start, 0) && #[trigger] ends_in(m, end, top)
}

/// No room holds more than one key: a room that holds a key of one layer
/// holds none of another.
pub proof fn lemma_one_key_per_room(m: MapView, p: Pos, j: int, k: int)
    requires
        keys_for(m, j).contains(p),
        keys_for(m, k).contains(p),
    ensures
        j == k,
{
}

/// In a finished map both ends of every connection are rooms, and they lie
/// on the grid.
pub proof fn lemma_connections_join_rooms(map: &NodeMap, top: int, i: int)
    requires
        map.wf(),
        solved(map@, top),
        0 <= i < map@.connections.len(),
    ensures
        map@.room_at(map@.connections[i].line.0) is Some,
        map@.room_at(map@.connections[i].line.1) is Some,
        map@.in_bounds(map@.connections[i].line.0),
        map@.in_bounds(map@.connections[i].line.1),
{
    map.lemma_rooms_in_bounds();
}

} // verus!
