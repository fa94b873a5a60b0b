//! Generation snapshots as mathematics, and what holds of a snapshot between
//! two layers.

use crate::layers::{complete, conns_ok, counts_ok, layer_of, layers_sized, step};
use crate::node::Node;
use crate::node_map::MapView;
use crate::pos::Pos;
use vstd::prelude::*;

verus! {

/// What a generation snapshot holds, as mathematics: the map so far, the
/// rooms in the order in which they were placed, how many of them the latest
/// layer placed, and that layer's number.
pub struct StateView {
    pub map: MapView,
    pub order: Seq<Pos>,
    pub amount: nat,
    pub layer: nat,
}

impl StateView {
    /// The snapshot after a room of the current layer, without a key, went to
    /// `q`.
    pub open spec fn placed(self, q: Pos) -> StateView {
        StateView {
            map: self.map.with_room(q, Node { layer: self.layer as u8, key: None }),
            order: self.order.push(q),
            ..self
        }
    }

    /// The snapshot after each of the rooms in `chosen` got the key of the
    /// current layer.
    pub open spec fn with_keys(self, chosen: Seq<Pos>) -> StateView {
        StateView {
            map: MapView {
                rooms: Map::new(
                    |p: Pos| self.map.rooms.dom().contains(p),
                    |p: Pos|
                        if chosen.contains(p) {
                            Node { layer: self.map.rooms[p].layer, key: Some(self.layer as u8) }
                        } else {
                            self.map.rooms[p]
                        },
                ),
                ..self.map
            },
            ..self
        }
    }
}

/// The placement order lists the rooms of the map, each once, and all of them
/// lie on the grid, which has at least one cell.
pub open spec fn listed(m: MapView, order: Seq<Pos>) -> bool {
    &&& 0 < m.width <= isize::MAX
    &&& 0 < m.height <= isize::MAX
    &&& order.no_duplicates()
    &&& forall|p: Pos| #[trigger] m.rooms.dom().contains(p) <==> order.contains(p)
    &&& forall|i: int| 0 <= i < order.len() ==> m.in_bounds(#[trigger] order[i])
}

/// Some room placed at `lo` or later, and before `hi`, is a neighbour of `q`.
pub open spec fn near(order: Seq<Pos>, lo: int, hi: int, q: Pos) -> bool {
    exists|j: int| 0 <= j && lo <= j < hi && j < order.len() && (#[trigger] order[j]).adjacent(q)
}

/// One of the first `k` offsets leads from `pos` to `q`.
pub open spec fn near_step(pos: Pos, k: int, q: Pos) -> bool {
    exists|d: int| 0 <= d < k && q == #[trigger] step(pos, d)
}

/// `q` is on the grid, empty, and next to a room placed from `lo` up to `hi`
/// or reached from `pos` by one of the first `k` offsets.
pub open spec fn collected(m: MapView, order: Seq<Pos>, lo: int, hi: int, pos: Pos, k: int, q: Pos) -> bool {
    &&& m.in_bounds(q)
    &&& !order.contains(q)
    &&& (near(order, lo, hi, q) || near_step(pos, k, q))
}

/// `q` is a cell where the next room may go: on the grid, empty, and next to
/// a room placed at `lo` or later, and before `hi`.
pub open spec fn is_available(m: MapView, order: Seq<Pos>, lo: int, hi: int, q: Pos) -> bool {
    &&& m.in_bounds(q)
    &&& !order.contains(q)
    &&& near(order, lo, hi, q)
}

/// No cell is left where the next room may go.
pub open spec fn stuck(m: MapView, order: Seq<Pos>, lo: int, hi: int) -> bool {
    forall|q: Pos| !#[trigger] is_available(m, order, lo, hi, q)
}

/// The rooms placed at `base` or later make up the current layer; the rooms
/// before them belong to earlier layers.
pub open spec fn layers_split(v: StateView, base: int) -> bool {
    &&& 0 <= base <= v.order.len()
    &&& forall|i: int|
        0 <= i < v.order.len() ==> if i >= base {
            layer_of(v.map, #[trigger] v.order[i]) == v.layer
        } else {
            layer_of(v.map, v.order[i]) < v.layer
        }
}

/// The `i`-th room has a neighbour of the layer before, which was placed
/// before it.
pub open spec fn linked_back(m: MapView, order: Seq<Pos>, i: int) -> bool {
    exists|j: int|
        0 <= j < i && (#[trigger] order[j]).adjacent(order[i]) && layer_of(m, order[j]) + 1 == layer_of(m, order[i])
}

/// The layers follow the placement order: the start room alone has layer
/// zero, the latest `amount` rooms make up the current layer, and every later
/// room lies next to a room of the layer before its own.
pub open spec fn layered(v: StateView) -> bool {
    &&& 1 <= v.amount <= v.order.len()
    &&& v.layer <= u8::MAX
    &&& layers_split(v, v.order.len() - v.amount)
    &&& layer_of(v.map, v.order[0]) == 0
    &&& forall|i: int| 1 <= i < v.order.len() ==> layer_of(v.map, #[trigger] v.order[i]) >= 1
    &&& forall|i: int, j: int|
        0 <= i <= j < v.order.len() ==> layer_of(v.map, #[trigger] v.order[i]) <= layer_of(
            v.map,
            #[trigger] v.order[j],
        )
    &&& forall|i: int| 1 <= i < v.order.len() ==> #[trigger] linked_back(v.map, v.order, i)
}

/// A key lies in a room of an earlier layer than the one it opens, never in
/// the start room, and opens a layer that exists.
pub open spec fn keys_ok(v: StateView) -> bool {
    forall|p: Pos| #[trigger]
        v.map.rooms.dom().contains(p) ==> match v.map.rooms[p].key {
            Some(k) => layer_of(v.map, p) < k <= v.layer && p != v.order[0],
            None => true,
        }
}

/// What holds of a snapshot between two layers.
pub open spec fn snapshot_ok(v: StateView) -> bool {
    &&& listed(v.map, v.order)
    &&& layered(v)
    &&& conns_ok(v.map)
    &&& complete(v.map)
    &&& keys_ok(v)
    &&& counts_ok(v.map)
    &&& layers_sized(v.map, v.layer as int)
}

} // verus!
