//! What the wiring of a new layer establishes.

use crate::layers::{conn_ok, conns_ok, count_locked, far_layer, layer_of, lemma_count_push, step};
use crate::node_map::{lemma_lookup, lemma_lookup_prefix, lookup, MapView};
use crate::pos::{Connection, ConnectState, Line, Pos};
use crate::snapshot::StateView;
use vstd::prelude::*;

verus! {

/// Which neighbours of the new rooms a wiring pass joins to them: rooms of
/// the layer before, rooms of the new layer itself, or rooms further back.
#[derive(Copy, Clone, Debug, PartialEq, Eq, Structural)]
pub enum Pass {
    Previous,
    Same,
    Other,
}

/// Whether `pass` deals with a neighbour of layer `lq` when the new layer is
/// `layer`.
pub open spec fn pass_covers(pass: Pass, lq: int, layer: int) -> bool {
    match pass {
        Pass::Previous => lq + 1 == layer,
        Pass::Same => lq == layer,
        Pass::Other => lq + 1 < layer,
    }
}

/// Whether the connections that `pass` adds are locks.
pub open spec fn locks(pass: Pass, layer: int) -> bool {
    pass == Pass::Previous && layer >= 2
}

/// The `d`-th neighbour of the `t`-th room is joined to it, if `pass` deals
/// with that neighbour.
pub open spec fn covered(m: MapView, order: Seq<Pos>, pass: Pass, layer: int, t: int, d: int) -> bool {
    let q = step(order[t], d);
    m.rooms.dom().contains(q) && pass_covers(pass, layer_of(m, q), layer) ==> lookup(
        m.connections,
        Line(q, order[t]),
    ) is Some
}

/// `c` touches a room placed at `base` or later.
pub open spec fn touches_new(order: Seq<Pos>, base: int, c: Connection) -> bool {
    exists|t: int| 0 <= t && base <= t < order.len() && c.line.touches(#[trigger] order[t])
}

/// Every connection of `v` behind those of `v0` touches a room placed at
/// `base` or later: none was added between two earlier rooms.
pub open spec fn added_touch(v0: StateView, v: StateView, base: int) -> bool {
    forall|i: int|
        v0.map.connections.len() <= i < v.map.connections.len() ==> touches_new(
            v.order,
            base,
            #[trigger] v.map.connections[i],
        )
}

/// `v` is `v0` with `added` connections more, all of them sound, and the
/// locks counted.
pub open spec fn wired_on(v0: StateView, v: StateView, pass: Pass, added: int) -> bool {
    &&& v.order == v0.order
    &&& v.amount == v0.amount
    &&& v.layer == v0.layer
    &&& v.map.rooms == v0.map.rooms
    &&& v.map.width == v0.map.width
    &&& v.map.height == v0.map.height
    &&& added >= 0
    &&& v.map.connections.len() == v0.map.connections.len() + added
    &&& v.map.connections.take(v0.map.connections.len() as int) == v0.map.connections
    &&& conns_ok(v.map)
    &&& forall|k: int| #[trigger]
        count_locked(v.map.rooms, v.map.connections, k) == count_locked(
            v0.map.rooms,
            v0.map.connections,
            k,
        ) + if k == v.layer && locks(pass, v.layer as int) {
            added
        } else {
            0
        }
}

/// Adding a sound connection for a pair of rooms that is not joined yet keeps
/// the connections sound and the count of locks right.
pub proof fn lemma_wire_add(v0: StateView, v: StateView, pass: Pass, added: int, c: Connection)
    requires
        wired_on(v0, v, pass, added),
        conn_ok(v.map, c),
        lookup(v.map.connections, c.line) is None,
        far_layer(v.map.rooms, c) == v.layer,
        c.state == ConnectState::Locked <==> locks(pass, v.layer as int),
    ensures
        wired_on(v0, StateView { map: v.map.with_connection(c), ..v }, pass, added + 1),
{
    let conns = v.map.connections;
    let after = conns.push(c);
    let m2 = v.map.with_connection(c);
    lemma_lookup(conns, c.line);
    assert(after.take(v0.map.connections.len() as int) =~= conns.take(v0.map.connections.len() as int));
    assert forall|k: int| #[trigger]
        count_locked(m2.rooms, after, k) == count_locked(v0.map.rooms, v0.map.connections, k) + if k
            == v.layer && locks(pass, v.layer as int) {
            added + 1
        } else {
            0
        } by {
        lemma_count_push(v.map.rooms, conns, c, k);
        assert(count_locked(v.map.rooms, conns, k) == count_locked(v0.map.rooms, v0.map.connections, k)
            + if k == v.layer && locks(pass, v.layer as int) {
            added
        } else {
            0
        });
    }
}

/// The `d`-th neighbour of the `t`-th room is joined to it, if it is a room.
pub open spec fn joined(m: MapView, order: Seq<Pos>, t: int, d: int) -> bool {
    m.rooms.dom().contains(step(order[t], d)) ==> lookup(m.connections, Line(step(order[t], d), order[t])) is Some
}

/// `v` is `v0` after the rooms placed at `base` or later were wired to all
/// their neighbours: the rooms are as they were, the old connections come
/// first, every connection behind them touches one of those rooms, all
/// connections are sound, and `locked` counts the connections into the layer
/// before, which are locks from the second layer on.
pub open spec fn wired(v0: StateView, v: StateView, base: int, locked: int) -> bool {
    &&& v.order == v0.order
    &&& v.amount == v0.amount
    &&& v.layer == v0.layer
    &&& v.map.rooms == v0.map.rooms
    &&& v.map.width == v0.map.width
    &&& v.map.height == v0.map.height
    &&& locked >= 0
    &&& v.map.connections.len() >= v0.map.connections.len()
    &&& v.map.connections.take(v0.map.connections.len() as int) == v0.map.connections
    &&& conns_ok(v.map)
    &&& forall|k: int| #[trigger]
        count_locked(v.map.rooms, v.map.connections, k) == count_locked(
            v0.map.rooms,
            v0.map.connections,
            k,
        ) + if k == v.layer && v.layer >= 2 {
            locked
        } else {
            0
        }
    &&& forall|t: int, d: int| base <= t < v.order.len() && 0 <= d < 4 ==> #[trigger] joined(v.map, v.order, t, d)
    &&& added_touch(v0, v, base)
}

/// A neighbour that is joined stays joined when connections are added.
pub proof fn lemma_covered_carries(v1: StateView, v2: StateView, pass: Pass, t: int, d: int)
    requires
        v2.order == v1.order,
        v2.map.rooms == v1.map.rooms,
        v2.map.connections.len() >= v1.map.connections.len(),
        v2.map.connections.take(v1.map.connections.len() as int) == v1.map.connections,
        covered(v1.map, v1.order, pass, v1.layer as int, t, d),
    ensures
        covered(v2.map, v2.order, pass, v1.layer as int, t, d),
{
    let e = Line(step(v1.order[t], d), v1.order[t]);
    if lookup(v1.map.connections, e) is Some {
        lemma_lookup_prefix(v2.map.connections, v1.map.connections.len() as int, e);
    }
}

} // verus!
