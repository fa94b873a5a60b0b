//! The layout of a layered map: which cells are neighbours, how the layers of
//! two rooms decide the connection between them, and how keys and locks are
//! counted.

use crate::node::Node;
use crate::node_map::{lookup, MapView};
use crate::pos::{Connection, ConnectState, Line, Pos};
use vstd::prelude::*;

verus! {

/// The fewest rooms that a layer places.
pub const MIN_ROOMS: usize = 4;

/// The most rooms that a layer places.
pub const MAX_ROOMS: usize = 7;

/// The four unit offsets that make two cells neighbours: up, down, left,
/// right. Diagonals do not count.
pub open spec fn offset(k: int) -> Pos {
    if k == 0 {
        Pos((-1int) as isize, 0)
    } else if k == 1 {
        Pos(1, 0)
    } else if k == 2 {
        Pos(0, (-1int) as isize)
    } else {
        Pos(0, 1)
    }
}

/// The cell reached from `pos` by the `k`-th offset.
pub open spec fn step(pos: Pos, k: int) -> Pos {
    Pos((pos.0 + offset(k).0) as isize, (pos.1 + offset(k).1) as isize)
}

/// The `k`-th of the four unit offsets.
pub fn direction(k: usize) -> (r: Pos)
    requires
        k < 4,
    ensures
        r == offset(k as int),
{
    if k == 0 {
        Pos(-1, 0)
    } else if k == 1 {
        Pos(1, 0)
    } else if k == 2 {
        Pos(0, -1)
    } else {
        Pos(0, 1)
    }
}

/// Away from the limits of `isize`, the neighbours of a cell are the four
/// cells that the unit offsets reach.
pub proof fn lemma_adjacent_steps(pos: Pos, q: Pos)
    requires
        isize::MIN < pos.0 < isize::MAX,
        isize::MIN < pos.1 < isize::MAX,
    ensures
        pos.adjacent(q) <==> exists|k: int| 0 <= k < 4 && q == #[trigger] step(pos, k),
        pos.adjacent(q) <==> q.adjacent(pos),
{
    if pos.adjacent(q) {
        if pos.0 == q.0 {
            if pos.1 - q.1 == 1 {
                assert(q == step(pos, 2));
            } else {
                assert(q == step(pos, 3));
            }
        } else {
            if pos.0 - q.0 == 1 {
                assert(q == step(pos, 0));
            } else {
                assert(q == step(pos, 1));
            }
        }
    }
}

/// The layer of the room at `p`.
pub open spec fn layer_of(m: MapView, p: Pos) -> int {
    m.rooms[p].layer as int
}

/// How two neighbouring rooms are joined, by their layers: rooms of one layer
/// openly; rooms of consecutive layers by a lock, but for the first layer,
/// which is open to the start room; rooms further apart not at all.
pub open spec fn wire_state(a: int, b: int) -> ConnectState {
    if a == b {
        ConnectState::Open
    } else if a == b + 1 || b == a + 1 {
        if a >= 2 || b >= 2 {
            ConnectState::Locked
        } else {
            ConnectState::Open
        }
    } else {
        ConnectState::Shortcut
    }
}

/// The connection joins two neighbouring rooms of the map in the way their
/// layers call for.
pub open spec fn conn_ok(m: MapView, c: Connection) -> bool {
    &&& m.rooms.dom().contains(c.line.0)
    &&& m.rooms.dom().contains(c.line.1)
    &&& c.line.0.adjacent(c.line.1)
    &&& c.state == wire_state(layer_of(m, c.line.0), layer_of(m, c.line.1))
}

/// No two connections join the same pair of rooms.
pub open spec fn edges_unique(conns: Seq<Connection>) -> bool {
    forall|i: int, j: int|
        0 <= i < j < conns.len() ==> !(#[trigger] conns[i]).line.same_edge((#[trigger] conns[j]).line)
}

/// Every connection joins two neighbouring rooms in the way their layers call
/// for, and no pair of rooms is joined twice.
pub open spec fn conns_ok(m: MapView) -> bool {
    &&& forall|i: int| 0 <= i < m.connections.len() ==> conn_ok(m, #[trigger] m.connections[i])
    &&& edges_unique(m.connections)
}

/// Any two neighbouring rooms are joined by a connection.
pub open spec fn complete(m: MapView) -> bool {
    forall|p: Pos, q: Pos|
        m.rooms.dom().contains(p) && m.rooms.dom().contains(q) && p.adjacent(q) ==> #[trigger] lookup(
            m.connections,
            Line(p, q),
        ) is Some
}

/// The higher of the layers of the two rooms that `c` joins.
pub open spec fn far_layer(rooms: Map<Pos, Node>, c: Connection) -> int {
    if rooms[c.line.0].layer >= rooms[c.line.1].layer {
        rooms[c.line.0].layer as int
    } else {
        rooms[c.line.1].layer as int
    }
}

/// `c` is a lock on the way into layer `k`.
pub open spec fn locked_into(rooms: Map<Pos, Node>, c: Connection, k: int) -> bool {
    c.state == ConnectState::Locked && far_layer(rooms, c) == k
}

/// How many of the connections are locks on the way into layer `k`.
pub open spec fn count_locked(rooms: Map<Pos, Node>, conns: Seq<Connection>, k: int) -> nat
    decreases conns.len(),
{
    if conns.len() == 0 {
        0
    } else {
        count_locked(rooms, conns.drop_last(), k) + if locked_into(rooms, conns.last(), k) {
            1nat
        } else {
            0nat
        }
    }
}

/// The count of locks after one more connection was added.
pub proof fn lemma_count_push(rooms: Map<Pos, Node>, conns: Seq<Connection>, c: Connection, k: int)
    ensures
        count_locked(rooms, conns.push(c), k) == count_locked(rooms, conns, k) + if locked_into(rooms, c, k) {
            1nat
        } else {
            0nat
        },
{
    assert(conns.push(c).drop_last() =~= conns);
}

/// The count of locks looks at the layers of the rooms alone.
pub proof fn lemma_count_frame(rooms1: Map<Pos, Node>, rooms2: Map<Pos, Node>, conns: Seq<Connection>, k: int)
    requires
        forall|i: int|
            0 <= i < conns.len() ==> rooms1[(#[trigger] conns[i]).line.0].layer == rooms2[conns[i].line.0].layer
                && rooms1[conns[i].line.1].layer == rooms2[conns[i].line.1].layer,
    ensures
        count_locked(rooms1, conns, k) == count_locked(rooms2, conns, k),
    decreases conns.len(),
{
    if conns.len() > 0 {
        let front = conns.drop_last();
        lemma_count_frame(rooms1, rooms2, front, k);
    }
}

/// Where no connection is a lock into layer `k`, the count is zero.
pub proof fn lemma_count_none(rooms: Map<Pos, Node>, conns: Seq<Connection>, k: int)
    requires
        forall|i: int| 0 <= i < conns.len() ==> !locked_into(rooms, #[trigger] conns[i], k),
    ensures
        count_locked(rooms, conns, k) == 0,
    decreases conns.len(),
{
    if conns.len() > 0 {
        let front = conns.drop_last();
        lemma_count_none(rooms, front, k);
    }
}

/// Where some connection is a lock into layer `k`, the count of such locks is
/// not zero.
pub proof fn lemma_count_some(rooms: Map<Pos, Node>, conns: Seq<Connection>, k: int, i: int)
    requires
        0 <= i < conns.len(),
        locked_into(rooms, conns[i], k),
    ensures
        count_locked(rooms, conns, k) >= 1,
    decreases conns.len(),
{
    if i < conns.len() - 1 {
        lemma_count_some(rooms, conns.drop_last(), k, i);
    }
}

/// The rooms that hold a key of layer `k`.
pub open spec fn keys_for(m: MapView, k: int) -> Set<Pos> {
    Set::new(|p: Pos| m.rooms.dom().contains(p) && m.rooms[p].key == Some(k as u8) && 0 <= k <= u8::MAX)
}

/// There are as many keys of layer `k` as there are locks on the way into it.
pub open spec fn count_ok(m: MapView, k: int) -> bool {
    keys_for(m, k).finite() && keys_for(m, k).len() == count_locked(m.rooms, m.connections, k)
}

/// For every layer there are as many keys as there are locks on the way into
/// it.
pub open spec fn counts_ok(m: MapView) -> bool {
    forall|k: int| #[trigger] count_ok(m, k)
}

/// The rooms of layer `k`.
pub open spec fn rooms_of_layer(m: MapView, k: int) -> Set<Pos> {
    Set::new(|p: Pos| m.rooms.dom().contains(p) && layer_of(m, p) == k)
}

/// Layer `k` has no fewer and no more rooms than a layer places.
pub open spec fn layer_sized(m: MapView, k: int) -> bool {
    rooms_of_layer(m, k).finite() && MIN_ROOMS <= rooms_of_layer(m, k).len() <= MAX_ROOMS
}

/// Every layer from the first up to `top` has no fewer and no more rooms than
/// a layer places.
pub open spec fn layers_sized(m: MapView, top: int) -> bool {
    forall|k: int| 1 <= k <= top ==> #[trigger] layer_sized(m, k)
}

} // verus!
