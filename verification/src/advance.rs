//! From one snapshot to the next: what the steps of a layer advance establish,
//! and why the snapshot of the next layer is sound again.

use crate::grid::{cells, lemma_cells_len};
use crate::layers::{
    complete, conns_ok, count_locked, count_ok, counts_ok, keys_for, layer_of, layer_sized,
    layers_sized, lemma_adjacent_steps, lemma_count_frame, rooms_of_layer, step, MAX_ROOMS,
    MIN_ROOMS,
};
use crate::node::Node;
use crate::node_map::{lemma_lookup_prefix, lemma_lookup_same_edge, lookup};
use crate::pos::{Line, Pos};
use crate::snapshot::{
    is_available, keys_ok, layered, layers_split, linked_back, listed, near, snapshot_ok, stuck,
    StateView,
};
use crate::wiring::{joined, wired};
use vstd::prelude::*;
use vstd::set_lib::lemma_len_subset;

verus! {

/// `v` is `v0` after `k` rooms of the next layer were placed, each next to a
/// room of the latest layer of `v0`. Nothing else changed.
pub open spec fn grown(v0: StateView, v: StateView, k: int) -> bool {
    &&& 0 <= k
    &&& v.layer == v0.layer + 1
    &&& v.layer <= u8::MAX
    &&& v.order.len() == v0.order.len() + k
    &&& v.order.take(v0.order.len() as int) == v0.order
    &&& v.map.width == v0.map.width
    &&& v.map.height == v0.map.height
    &&& v.map.connections == v0.map.connections
    &&& forall|p: Pos| #[trigger]
        v0.map.rooms.dom().contains(p) ==> v.map.rooms.dom().contains(p) && v.map.rooms[p] == v0.map.rooms[p]
    &&& forall|t: int|
        v0.order.len() <= t < v.order.len() ==> {
            &&& v.map.rooms[#[trigger] v.order[t]] == (Node { layer: v.layer as u8, key: None })
            &&& near(v.order, v0.order.len() - v0.amount, v0.order.len() as int, v.order[t])
        }
}

/// Placing one more room on an available cell keeps the snapshot grown from
/// `v0`.
pub proof fn lemma_grown_step(v0: StateView, v: StateView, k: int, q: Pos)
    requires
        grown(v0, v, k),
        listed(v.map, v.order),
        v0.amount <= v0.order.len(),
        is_available(v.map, v.order, v0.order.len() - v0.amount, v0.order.len() as int, q),
    ensures
        grown(v0, v.placed(q), k + 1),
{
    let v2 = v.placed(q);
    let n0 = v0.order.len() as int;
    let skip = n0 - v0.amount;
    assert(v2.order.take(n0) =~= v.order.take(n0));
    assert forall|t: int| n0 <= t < v2.order.len() implies {
        &&& v2.map.rooms[#[trigger] v2.order[t]] == (Node { layer: v2.layer as u8, key: None })
        &&& near(v2.order, skip, n0, v2.order[t])
    } by {
        if t < v.order.len() {
            let j = choose|j: int|
                0 <= j && skip <= j < n0 && j < v.order.len() && (#[trigger] v.order[j]).adjacent(v.order[t]);
            assert(v2.order[j] == v.order[j]);
        } else {
            let j = choose|j: int|
                0 <= j && skip <= j < n0 && j < v.order.len() && (#[trigger] v.order[j]).adjacent(q);
            assert(v2.order[j] == v.order[j]);
        }
    }
}

/// A snapshot grown from a sound one is ready for wiring: the new rooms make
/// up the current layer, and the connections so far are sound.
pub proof fn lemma_grown_wirable(v0: StateView, v: StateView, k: int)
    requires
        snapshot_ok(v0),
        grown(v0, v, k),
        listed(v.map, v.order),
    ensures
        layers_split(v, v0.order.len() as int),
        conns_ok(v.map),
{
    let n0 = v0.order.len() as int;
    assert forall|i: int| 0 <= i < v.order.len() implies if i >= n0 {
        layer_of(v.map, #[trigger] v.order[i]) == v.layer
    } else {
        layer_of(v.map, v.order[i]) < v.layer
    } by {
        if i < n0 {
            assert(v0.map.rooms.dom().contains(v0.order[i]));
        }
    }
}

/// The cells where a room of the next layer may go: on the grid, empty, and
/// next to a room of the latest layer.
pub open spec fn frontier(v: StateView) -> Set<Pos> {
    Set::new(|q: Pos| is_available(v.map, v.order, v.order.len() - v.amount, v.order.len() as int, q))
}

/// The frontier has no more cells than the grid.
pub proof fn lemma_frontier_finite(v: StateView)
    requires
        listed(v.map, v.order),
    ensures
        frontier(v).finite(),
{
    let all = cells(v.map.width, v.map.height);
    lemma_cells_len(v.map.width, v.map.height);
    assert(frontier(v).subset_of(all));
    lemma_len_subset(frontier(v), all);
}

/// On a grid with fewer than three rows or fewer than three columns the start
/// room has fewer free cells next to it than the fewest rooms of a layer: of
/// two cells on opposite sides of it, one is off the grid.
pub proof fn lemma_narrow_frontier(v: StateView)
    requires
        listed(v.map, v.order),
        v.order.len() == 1,
        v.amount == 1,
        v.map.width < 3 || v.map.height < 3,
    ensures
        frontier(v).finite(),
        frontier(v).len() < MIN_ROOMS,
{
    let start = v.order[0];
    let up = step(start, 0);
    let down = step(start, 1);
    let left = step(start, 2);
    let right = step(start, 3);
    assert(v.map.in_bounds(v.order[0]));
    let around = if v.map.width < 3 {
        if v.map.in_bounds(left) {
            set![up, down, left]
        } else {
            set![up, down, right]
        }
    } else {
        if v.map.in_bounds(up) {
            set![left, right, up]
        } else {
            set![left, right, down]
        }
    };
    assert(around.finite() && around.len() <= 3);
    assert forall|q: Pos| frontier(v).contains(q) implies around.contains(q) by {
        let j = choose|j: int| 0 <= j && 0 <= j < 1 && j < v.order.len() && (#[trigger] v.order[j]).adjacent(q);
        lemma_adjacent_steps(start, q);
    }
    lemma_len_subset(frontier(v), around);
}

/// The rooms of a layer in the making are cells of the frontier, each another
/// one; and as long as they are fewer than the frontier has cells, a cell is
/// left for the next room.
pub proof fn lemma_frontier(v0: StateView, v: StateView, k: int)
    requires
        listed(v0.map, v0.order),
        v0.amount <= v0.order.len(),
        grown(v0, v, k),
        listed(v.map, v.order),
    ensures
        frontier(v0).finite(),
        k <= frontier(v0).len(),
        k < frontier(v0).len() ==> !stuck(v.map, v.order, v0.order.len() - v0.amount, v0.order.len() as int),
{
    let n0 = v0.order.len() as int;
    let skip = n0 - v0.amount;
    let all = cells(v0.map.width, v0.map.height);
    let open_cells = frontier(v0);
    let fresh = v.order.subrange(n0, n0 + k);
    lemma_cells_len(v0.map.width, v0.map.height);
    assert(open_cells.subset_of(all));
    lemma_len_subset(open_cells, all);
    assert(fresh.no_duplicates());
    fresh.unique_seq_to_set();
    assert forall|j: int| 0 <= j < n0 implies v.order[j] == #[trigger] v0.order[j] by {
        assert(v.order.take(n0)[j] == v.order[j]);
    }
    assert forall|q: Pos| fresh.to_set().contains(q) implies open_cells.contains(q) by {
        let t = choose|t: int| 0 <= t < fresh.len() && fresh[t] == q;
        assert(v.order[n0 + t] == q);
        assert(v.map.in_bounds(v.order[n0 + t]));
        assert(near(v.order, skip, n0, v.order[n0 + t]));
        let j = choose|j: int|
            0 <= j && skip <= j < n0 && j < v.order.len() && (#[trigger] v.order[j]).adjacent(v.order[n0 + t]);
        assert(v0.order[j].adjacent(q));
        if v0.order.contains(q) {
            let i = choose|i: int| 0 <= i < v0.order.len() && v0.order[i] == q;
            assert(v.order[i] == v.order[n0 + t]);
        }
    }
    lemma_len_subset(fresh.to_set(), open_cells);
    if k < open_cells.len() {
        if open_cells.subset_of(fresh.to_set()) {
            lemma_len_subset(open_cells, fresh.to_set());
        }
        let q = choose|q: Pos| open_cells.contains(q) && !fresh.to_set().contains(q);
        let j = choose|j: int|
            0 <= j && skip <= j < n0 && j < v0.order.len() && (#[trigger] v0.order[j]).adjacent(q);
        assert(v.order[j].adjacent(q));
        if v.order.contains(q) {
            let i = choose|i: int| 0 <= i < v.order.len() && v.order[i] == q;
            if i < n0 {
                assert(v0.order[i] == q);
            } else {
                assert(fresh[i - n0] == q);
            }
        }
        assert(is_available(v.map, v.order, skip, n0, q));
    }
}

/// The rooms that may take a key: placed before `base`, not the start room,
/// and without a key so far.
pub open spec fn eligible(v: StateView, base: int) -> Set<Pos> {
    Set::new(|p: Pos| v.map.rooms[p].key is None && exists|i: int| 1 <= i < base && #[trigger] v.order[i] == p)
}

/// `v` is `v0` after `locked` different rooms, all of them eligible, got the
/// key of the current layer.
pub open spec fn keys_given(v0: StateView, v: StateView, base: int, locked: int, chosen: Seq<Pos>) -> bool {
    &&& chosen.no_duplicates()
    &&& chosen.len() == locked
    &&& forall|j: int| 0 <= j < chosen.len() ==> eligible(v0, base).contains(#[trigger] chosen[j])
    &&& v == v0.with_keys(chosen)
}

/// Items taken from places of their own in a list without repeats do not
/// repeat either, and each of them is in the list.
pub proof fn lemma_picked(items: Seq<Pos>, chosen: Seq<Pos>)
    requires
        items.no_duplicates(),
        chosen.to_multiset().subset_of(items.to_multiset()),
    ensures
        chosen.no_duplicates(),
        forall|i: int| 0 <= i < chosen.len() ==> items.contains(#[trigger] chosen[i]),
{
    items.lemma_multiset_has_no_duplicates();
    items.to_multiset_ensures();
    chosen.to_multiset_ensures();
    chosen.lemma_multiset_has_no_duplicates_conv();
    assert forall|i: int| 0 <= i < chosen.len() implies items.contains(#[trigger] chosen[i]) by {
        assert(chosen.to_multiset().count(chosen[i]) <= items.to_multiset().count(chosen[i]));
    }
}

/// What the rooms of `v0` have become in `v3`, the snapshot of the next
/// layer: `k` rooms were placed, wired, and, but for the first layer, the
/// chosen rooms got the new layer's key.
pub open spec fn advanced(v0: StateView, v1: StateView, v2: StateView, v3: StateView, chosen: Seq<Pos>, locked: int) -> bool {
    let n0 = v0.order.len() as int;
    &&& snapshot_ok(v0)
    &&& grown(v0, v1, v1.amount as int)
    &&& MIN_ROOMS <= v1.amount <= MAX_ROOMS
    &&& listed(v1.map, v1.order)
    &&& wired(v1, v2, n0, locked)
    &&& v3 == if v0.layer == 0 {
        v2
    } else {
        v2.with_keys(chosen)
    }
    &&& chosen.no_duplicates()
    &&& chosen.len() == locked
    &&& forall|i: int|
        0 <= i < chosen.len() ==> v2.map.rooms[#[trigger] chosen[i]].key is None && exists|x: int|
            1 <= x < n0 && #[trigger] v2.order[x] == chosen[i]
}

/// What an advance leaves as it was: the order and the layers of the rooms
/// of `v0`, and their keys where they had one.
pub proof fn lemma_advanced_basics(v0: StateView, v1: StateView, v2: StateView, v3: StateView, chosen: Seq<Pos>, locked: int)
    requires
        advanced(v0, v1, v2, v3, chosen, locked),
    ensures
        v3.order == v1.order,
        v3.layer == v1.layer,
        v3.amount == v1.amount,
        v3.map.connections == v2.map.connections,
        v3.map.width == v0.map.width,
        v3.map.height == v0.map.height,
        listed(v3.map, v3.order),
        forall|i: int| 0 <= i < v0.order.len() ==> #[trigger] v3.order[i] == v0.order[i],
        forall|p: Pos| v3.map.rooms.dom().contains(p) <==> v1.map.rooms.dom().contains(p),
        forall|p: Pos| #[trigger] v3.map.rooms.dom().contains(p) ==> layer_of(v3.map, p) == layer_of(v1.map, p),
        forall|i: int| 0 <= i < v0.order.len() ==> v0.map.rooms.dom().contains(#[trigger] v0.order[i]),
        forall|i: int|
            0 <= i < v0.order.len() ==> layer_of(v3.map, #[trigger] v3.order[i]) == layer_of(v0.map, v0.order[i]),
        forall|i: int| v0.order.len() <= i < v3.order.len() ==> layer_of(v3.map, #[trigger] v3.order[i]) == v3.layer,
        forall|i: int| 0 <= i < chosen.len() ==> v0.map.rooms.dom().contains(#[trigger] chosen[i]),
        forall|p: Pos| #[trigger]
            v0.map.rooms.dom().contains(p) ==> v3.map.rooms[p].key == v0.map.rooms[p].key || (v0.map.rooms[p].key
                is None && v3.map.rooms[p].key == Some(v3.layer as u8)),
{
    let n0 = v0.order.len() as int;
    assert forall|i: int| 0 <= i < n0 implies v0.map.rooms.dom().contains(#[trigger] v0.order[i]) by {}
    assert forall|i: int| 0 <= i < chosen.len() implies v0.map.rooms.dom().contains(#[trigger] chosen[i]) by {
        let x = choose|x: int| 1 <= x < n0 && #[trigger] v2.order[x] == chosen[i];
        assert(v0.map.rooms.dom().contains(v0.order[x]));
    }
}

/// After an advance the layers follow the placement order.
pub proof fn lemma_advanced_layered(v0: StateView, v1: StateView, v2: StateView, v3: StateView, chosen: Seq<Pos>, locked: int)
    requires
        advanced(v0, v1, v2, v3, chosen, locked),
    ensures
        layered(v3),
{
    lemma_advanced_basics(v0, v1, v2, v3, chosen, locked);
    let n0 = v0.order.len() as int;
    let n = v3.order.len() as int;
    let skip = n0 - v0.amount;
    assert forall|i: int| 1 <= i < n implies #[trigger] linked_back(v3.map, v3.order, i) by {
        if i < n0 {
            assert(linked_back(v0.map, v0.order, i));
        } else {
            let j = choose|j: int|
                0 <= j && skip <= j < n0 && j < v1.order.len() && (#[trigger] v1.order[j]).adjacent(v1.order[i]);
            assert(layer_of(v0.map, v0.order[j]) == v0.layer);
        }
    }
}

/// After an advance every connection is sound, and any two neighbouring
/// rooms are joined.
pub proof fn lemma_advanced_wired(v0: StateView, v1: StateView, v2: StateView, v3: StateView, chosen: Seq<Pos>, locked: int)
    requires
        advanced(v0, v1, v2, v3, chosen, locked),
    ensures
        conns_ok(v3.map),
        complete(v3.map),
{
    lemma_advanced_basics(v0, v1, v2, v3, chosen, locked);
    let n0 = v0.order.len() as int;
    let conns = v3.map.connections;
    assert forall|p: Pos, q: Pos|
        v3.map.rooms.dom().contains(p) && v3.map.rooms.dom().contains(q) && p.adjacent(q) implies #[trigger] lookup(
        conns,
        Line(p, q),
    ) is Some by {
        let a = choose|a: int| 0 <= a < v3.order.len() && v3.order[a] == p;
        let b = choose|b: int| 0 <= b < v3.order.len() && v3.order[b] == q;
        if a >= n0 {
            lemma_adjacent_steps(p, q);
            let d = choose|d: int| 0 <= d < 4 && q == #[trigger] step(p, d);
            assert(joined(v2.map, v2.order, a, d));
            lemma_lookup_same_edge(conns, Line(q, p), Line(p, q));
        } else if b >= n0 {
            lemma_adjacent_steps(p, q);
            lemma_adjacent_steps(q, p);
            let d = choose|d: int| 0 <= d < 4 && p == #[trigger] step(q, d);
            assert(joined(v2.map, v2.order, b, d));
        } else {
            lemma_lookup_prefix(conns, v0.map.connections.len() as int, Line(p, q));
        }
    }
}

/// After an advance every key lies in a room of an earlier layer than the
/// one it opens, and none in the start room.
pub proof fn lemma_advanced_keys(v0: StateView, v1: StateView, v2: StateView, v3: StateView, chosen: Seq<Pos>, locked: int)
    requires
        advanced(v0, v1, v2, v3, chosen, locked),
    ensures
        keys_ok(v3),
{
    lemma_advanced_basics(v0, v1, v2, v3, chosen, locked);
    assert forall|p: Pos| #[trigger] v3.map.rooms.dom().contains(p) implies match v3.map.rooms[p].key {
        Some(k) => layer_of(v3.map, p) < k <= v3.layer && p != v3.order[0],
        None => true,
    } by {
        let a = choose|a: int| 0 <= a < v3.order.len() && v3.order[a] == p;
        assert(v3.order[a] == p);
        if v0.layer != 0 && chosen.contains(p) {
            let i = choose|i: int| 0 <= i < chosen.len() && chosen[i] == p;
            assert(chosen[i] == p);
        }
    }
}

/// After an advance every layer has as many keys as locks into it.
pub proof fn lemma_advanced_counts(v0: StateView, v1: StateView, v2: StateView, v3: StateView, chosen: Seq<Pos>, locked: int)
    requires
        advanced(v0, v1, v2, v3, chosen, locked),
    ensures
        counts_ok(v3.map),
{
    lemma_advanced_basics(v0, v1, v2, v3, chosen, locked);
    let n0 = v0.order.len() as int;
    let layer = v3.layer as int;
    assert forall|k: int| #[trigger] count_ok(v3.map, k) by {
        // the locks
        assert(count_locked(v2.map.rooms, v2.map.connections, k) == count_locked(
            v1.map.rooms,
            v1.map.connections,
            k,
        ) + if k == layer && layer >= 2 {
            locked
        } else {
            0
        });
        lemma_count_frame(v3.map.rooms, v2.map.rooms, v3.map.connections, k);
        lemma_count_frame(v1.map.rooms, v0.map.rooms, v0.map.connections, k);
        assert(count_ok(v0.map, k));
        // the keys
        if k == layer && layer >= 2 {
            assert(keys_for(v0.map, k) =~= Set::<Pos>::empty());
            assert(keys_for(v3.map, k) =~= chosen.to_set()) by {
                assert forall|p: Pos| keys_for(v3.map, k).contains(p) <==> chosen.to_set().contains(p) by {
                    if !chosen.contains(p) && v3.map.rooms.dom().contains(p) {
                        let a = choose|a: int| 0 <= a < v3.order.len() && v3.order[a] == p;
                        assert(v3.order[a] == p);
                    }
                }
            }
            chosen.unique_seq_to_set();
        } else {
            assert(keys_for(v3.map, k) =~= keys_for(v0.map, k)) by {
                assert forall|p: Pos| keys_for(v3.map, k).contains(p) <==> keys_for(v0.map, k).contains(p) by {
                    if !(v0.layer != 0 && chosen.contains(p)) && v3.map.rooms.dom().contains(p) {
                        let a = choose|a: int| 0 <= a < v3.order.len() && v3.order[a] == p;
                        if a >= n0 {
                            assert(!v0.order.contains(p));
                        }
                    }
                }
            }
        }
    }
}

/// After an advance every layer but the start room's has as many rooms as a
/// layer places.
pub proof fn lemma_advanced_sizes(v0: StateView, v1: StateView, v2: StateView, v3: StateView, chosen: Seq<Pos>, locked: int)
    requires
        advanced(v0, v1, v2, v3, chosen, locked),
    ensures
        layers_sized(v3.map, v3.layer as int),
{
    lemma_advanced_basics(v0, v1, v2, v3, chosen, locked);
    let n0 = v0.order.len() as int;
    let n = v3.order.len() as int;
    assert forall|k: int| 1 <= k <= v3.layer implies #[trigger] layer_sized(v3.map, k) by {
        if k == v3.layer {
            let fresh = v3.order.subrange(n0, n);
            assert(rooms_of_layer(v3.map, k) =~= fresh.to_set()) by {
                assert forall|p: Pos| rooms_of_layer(v3.map, k).contains(p) <==> fresh.to_set().contains(p) by {
                    if rooms_of_layer(v3.map, k).contains(p) {
                        let a = choose|a: int| 0 <= a < v3.order.len() && v3.order[a] == p;
                        assert(fresh[a - n0] == p);
                    }
                }
            }
            fresh.unique_seq_to_set();
        } else {
            assert(layer_sized(v0.map, k));
            assert(rooms_of_layer(v3.map, k) =~= rooms_of_layer(v0.map, k)) by {
                assert forall|p: Pos| rooms_of_layer(v3.map, k).contains(p) <==> rooms_of_layer(v0.map, k).contains(
                    p,
                ) by {
                    if v3.map.rooms.dom().contains(p) {
                        let a = choose|a: int| 0 <= a < v3.order.len() && v3.order[a] == p;
                        if a >= n0 {
                            assert(!v0.order.contains(p));
                        }
                    }
                }
            }
        }
    }
}

/// The snapshot of the next layer is sound again.
pub proof fn lemma_advanced(v0: StateView, v1: StateView, v2: StateView, v3: StateView, chosen: Seq<Pos>, locked: int)
    requires
        advanced(v0, v1, v2, v3, chosen, locked),
    ensures
        snapshot_ok(v3),
{
    lemma_advanced_basics(v0, v1, v2, v3, chosen, locked);
    lemma_advanced_layered(v0, v1, v2, v3, chosen, locked);
    lemma_advanced_wired(v0, v1, v2, v3, chosen, locked);
    lemma_advanced_keys(v0, v1, v2, v3, chosen, locked);
    lemma_advanced_counts(v0, v1, v2, v3, chosen, locked);
    lemma_advanced_sizes(v0, v1, v2, v3, chosen, locked);
}

/// `v` is the snapshot of the layer after `v0`: the rooms of `v0` in their
/// order, then the rooms of the new layer, on the same grid. The rooms of `v0`
/// have kept their layers and their keys; some that had no key may hold a key
/// of the new layer. The connections of `v0` come first.
pub open spec fn follows(v0: StateView, v: StateView) -> bool {
    &&& v.layer == v0.layer + 1
    &&& MIN_ROOMS <= v.amount <= MAX_ROOMS
    &&& v.order.len() == v0.order.len() + v.amount
    &&& v.order.take(v0.order.len() as int) == v0.order
    &&& v.map.width == v0.map.width
    &&& v.map.height == v0.map.height
    &&& v.map.connections.len() >= v0.map.connections.len()
    &&& v.map.connections.take(v0.map.connections.len() as int) == v0.map.connections
    &&& forall|p: Pos| #[trigger]
        v0.map.rooms.dom().contains(p) ==> {
            &&& v.map.rooms.dom().contains(p)
            &&& v.map.rooms[p].layer == v0.map.rooms[p].layer
            &&& v.map.rooms[p].key == v0.map.rooms[p].key || (v0.map.rooms[p].key is None && v.map.rooms[p].key
                == Some(v.layer as u8))
        }
}

} // verus!
