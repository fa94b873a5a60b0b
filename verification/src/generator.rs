//! The layer generator: grows a room map layer by layer, wires the new rooms
//! to their neighbours, hands out keys, and backtracks on a dead end.

use crate::advance::{
    eligible, follows, frontier, grown, keys_given, lemma_advanced, lemma_advanced_basics,
    lemma_frontier, lemma_frontier_finite, lemma_grown_step, lemma_grown_wirable,
    lemma_narrow_frontier, lemma_picked,
};
use crate::finish::{lemma_sealed_solved, sealed};
use crate::grid::{lemma_full_iff_stuck, lemma_rooms_fit};
use crate::layers::{
    conns_ok, count_locked, count_ok, direction, keys_for, layer_of, lemma_adjacent_steps,
    lemma_count_none, step, MAX_ROOMS, MIN_ROOMS,
};
use crate::node::Node;
use crate::node_map::{lemma_lookup_push, NodeMap};
use crate::pos::{Connection, ConnectState, Line, Pos};
use crate::random::{gen_range, pick_many, pick_one};
use crate::snapshot::{
    collected, is_available, layers_split, listed, near, near_step, snapshot_ok, stuck, StateView,
};
use crate::solvable::solved;
use crate::wiring::{
    added_touch, covered, joined, lemma_covered_carries, lemma_wire_add, locks, touches_new, wired,
    wired_on, Pass,
};
use rand::rngs::ThreadRng;
use vstd::prelude::*;
use vstd::seq_lib::lemma_seq_contains_after_push;

verus! {

/// How often a run may fall back to an earlier snapshot.
pub const RETRIES: i32 = 10;

/// Why a generation step or a whole run came to nothing.
#[derive(Copy, Clone, Debug, PartialEq, Eq, Structural)]
pub enum GenerateError {
    /// A layer could not place its next room: every candidate cell is taken
    /// or off the grid.
    NoSpace,
    /// A layer needs more keys than there are rooms left to hold one.
    NoKeyRoom,
    /// No free cell is left for the terminal room.
    NoEndSpace,
    /// The terminal layer would have no number.
    TooManyLayers,
    /// The grid has more cells than can be counted.
    GridTooLarge,
    /// The retry budget ran out before the last layer was reached.
    RetriesExhausted,
}

impl GenerateError {
    /// What the error says, as text.
    pub open spec fn text(self) -> Seq<char> {
        match self {
            GenerateError::NoSpace => "No available spaces!"@,
            GenerateError::NoKeyRoom => "Not enough rooms left to hold the keys"@,
            GenerateError::NoEndSpace => "No available space for the final room"@,
            GenerateError::TooManyLayers => "Too many layers to number the final one"@,
            GenerateError::GridTooLarge => "Too many cells to hold the grid"@,
            GenerateError::RetriesExhausted => "Failed to generate after 10 retries"@,
        }
    }

    /// What the error says.
    pub fn message(&self) -> (r: String)
        ensures
            r@ == self.text(),
    {
        match self {
            GenerateError::NoSpace => "No available spaces!".to_owned(),
            GenerateError::NoKeyRoom => "Not enough rooms left to hold the keys".to_owned(),
            GenerateError::NoEndSpace => "No available space for the final room".to_owned(),
            GenerateError::TooManyLayers => "Too many layers to number the final one".to_owned(),
            GenerateError::GridTooLarge => "Too many cells to hold the grid".to_owned(),
            GenerateError::RetriesExhausted => "Failed to generate after 10 retries".to_owned(),
        }
    }
}

/// A run that cannot succeed: its grid has one cell only; or it has a layer
/// to place and its grid has fewer than three rows or fewer than three
/// columns, so that the start room has too few cells next to it for the
/// fewest rooms of a layer; or its grid has more cells than can be counted; or
/// its terminal layer would have no number.
pub open spec fn fails(width: int, height: int, layers: int) -> bool {
    ||| width * height == 1
    ||| (layers > 0 && (width < 3 || height < 3))
    ||| width * height > usize::MAX
    ||| layers >= u8::MAX
}

/// A run that cannot fail: it has no layer to place, and its grid has a cell
/// for the terminal room. With a layer to place the draws decide: the start
/// room has four neighbours at most, and a layer places four rooms at least.
pub open spec fn succeeds(width: int, height: int, layers: int) -> bool {
    layers == 0 && 1 < width * height <= usize::MAX
}

/// The error of a run that cannot succeed. The number of layers is looked at
/// first, then the size of the grid. On a small grid without layers no cell is
/// left for the terminal room; with layers no layer can be advanced, and the
/// retries run out.
pub open spec fn run_error(width: int, height: int, layers: int) -> GenerateError {
    if layers >= u8::MAX {
        GenerateError::TooManyLayers
    } else if width * height > usize::MAX {
        GenerateError::GridTooLarge
    } else if layers == 0 {
        GenerateError::NoEndSpace
    } else {
        GenerateError::RetriesExhausted
    }
}

/// The errors that a run may end with: each of the two errors on the inputs
/// themselves comes exactly for the inputs that it names, the retries run out
/// only where there are layers to advance, and no run that cannot fail ends
/// with an error.
pub open spec fn may_fail_with(width: int, height: int, layers: int, e: GenerateError) -> bool {
    match e {
        GenerateError::TooManyLayers => layers >= u8::MAX,
        GenerateError::GridTooLarge => layers < u8::MAX && width * height > usize::MAX,
        GenerateError::RetriesExhausted => 0 < layers < u8::MAX && width * height <= usize::MAX && !succeeds(
            width,
            height,
            layers,
        ),
        GenerateError::NoEndSpace => layers < u8::MAX && width * height <= usize::MAX && !succeeds(
            width,
            height,
            layers,
        ),
        _ => false,
    }
}

/// Whether `items` holds `pos`.
pub fn contains_pos(items: &Vec<Pos>, pos: Pos) -> (r: bool)
    ensures
        r == items@.contains(pos),
{
    let mut i: usize = 0;
    while i < items.len()
        invariant
            i <= items@.len(),
            forall|j: int| 0 <= j < i ==> items@[j] != pos,
        decreases items@.len() - i,
    {
        if items[i] == pos {
            return true;
        }
        i += 1;
    }
    false
}

/// A snapshot of a generation in progress.
pub struct GeneratorState {
    node_map: NodeMap,
    pos_list: Vec<Pos>,
    amount: usize,
    layer: u8,
}

impl View for GeneratorState {
    type V = StateView;

    closed spec fn view(&self) -> StateView {
        StateView {
            map: self.node_map@,
            order: self.pos_list@,
            amount: self.amount as nat,
            layer: self.layer as nat,
        }
    }
}

impl Clone for GeneratorState {
    /// A snapshot that holds the same map and the same placement order.
    fn clone(&self) -> (r: GeneratorState)
        ensures
            r@ == self@,
            r.sound() == self.sound(),
    {
        let mut pos_list: Vec<Pos> = Vec::new();
        let mut i: usize = 0;
        while i < self.pos_list.len()
            invariant
                i <= self.pos_list@.len(),
                pos_list@ == self.pos_list@.take(i as int),
            decreases self.pos_list@.len() - i,
        {
            pos_list.push(self.pos_list[i]);
            i += 1;
        }
        assert(pos_list@ =~= self.pos_list@);
        GeneratorState { node_map: self.node_map.clone(), pos_list, amount: self.amount, layer: self.layer }
    }
}

impl GeneratorState {
    /// The map is sound and the placement order lists its rooms.
    pub closed spec fn sound(&self) -> bool {
        &&& self.node_map.wf()
        &&& listed(self@.map, self@.order)
    }

    /// In a sound snapshot the placement order lists the rooms of the map, each
    /// once, and all of them lie on the grid.
    pub proof fn lemma_sound_listed(&self)
        requires
            self.sound(),
        ensures
            listed(self@.map, self@.order),
    {
    }

    /// The snapshot holds everything that belongs to a snapshot between two
    /// layers.
    pub open spec fn valid(&self) -> bool {
        self.sound() && snapshot_ok(self@)
    }

    /// The map so far.
    pub fn node_map(&self) -> (r: &NodeMap)
        ensures
            r@ == self@.map,
            self.sound() ==> r.wf(),
    {
        &self.node_map
    }

    /// The rooms in the order in which they were placed.
    pub fn pos_list(&self) -> (r: &Vec<Pos>)
        ensures
            r@ == self@.order,
    {
        &self.pos_list
    }

    /// How many rooms the latest layer placed.
    pub fn amount(&self) -> (r: usize)
        ensures
            r == self@.amount,
    {
        self.amount
    }

    /// The number of the latest layer.
    pub fn layer(&self) -> (r: u8)
        ensures
            r == self@.layer,
    {
        self.layer
    }

    /// The root snapshot: one room of layer zero at `start`, on an otherwise
    /// empty grid.
    pub fn root(width: usize, height: usize, start: Pos) -> (r: GeneratorState)
        requires
            0 < width <= isize::MAX,
            0 < height <= isize::MAX,
            width * height <= usize::MAX,
            0 <= start.0 < height,
            0 <= start.1 < width,
        ensures
            r.sound(),
            snapshot_ok(r@),
            r@.map.width == width,
            r@.map.height == height,
            r@.map.rooms == Map::<Pos, Node>::empty().insert(start, Node { layer: 0, key: None }),
            r@.map.connections == Seq::<Connection>::empty(),
            r@.order == seq![start],
            r@.amount == 1,
            r@.layer == 0,
    {
        let mut node_map = NodeMap::with_size(width, height);
        node_map.set_node(start, Node::default());
        let mut pos_list: Vec<Pos> = Vec::new();
        pos_list.push(start);
        let r = GeneratorState { node_map, pos_list, amount: 1, layer: 0 };
        assert forall|p: Pos| #[trigger] r@.map.rooms.dom().contains(p) <==> r@.order.contains(p) by {
            if p == start {
                assert(r@.order[0] == p);
            }
        }
        proof {
            assert forall|k: int| #[trigger] count_ok(r@.map, k) by {
                assert(keys_for(r@.map, k) =~= Set::<Pos>::empty());
            }
        }
        r
    }

    /// Gives up the snapshot for its map.
    pub fn into_map(self) -> (r: NodeMap)
        ensures
            r@ == self@.map,
            self.sound() ==> r.wf(),
    {
        self.node_map
    }

    /// Opens the next layer, which is to place `amount` rooms. The map and the
    /// placement order stay as they are.
    pub fn begin_layer(&mut self, amount: usize)
        requires
            old(self).sound(),
            old(self)@.layer < u8::MAX,
        ensures
            final(self).sound(),
            final(self)@ == (StateView { layer: old(self)@.layer + 1, amount: amount as nat, ..old(self)@ }),
    {
        self.layer = self.layer + 1;
        self.amount = amount;
    }

    /// Puts a room of the current layer, without a key, at `q` and lists it
    /// last.
    pub fn place(&mut self, q: Pos)
        requires
            old(self).sound(),
            old(self)@.map.in_bounds(q),
            !old(self)@.order.contains(q),
        ensures
            final(self).sound(),
            final(self)@ == old(self)@.placed(q),
    {
        self.pos_list.push(q);
        self.node_map.set_node(q, Node::with_layer(self.layer));
        proof {
            let before = old(self)@.order;
            let after = self@.order;
            assert forall|p: Pos| after.contains(p) <==> before.contains(p) || p == q by {
                lemma_seq_contains_after_push(before, q, p);
            }
        }
    }

    /// The cells next to any room placed at `skip` or later that are on the
    /// grid and empty. Each cell is listed once.
    pub fn available_spaces_with_skip(&self, skip: usize) -> (r: Vec<Pos>)
        requires
            self.sound(),
        ensures
            r@.no_duplicates(),
            forall|q: Pos|
                #![trigger r@.contains(q)]
                #![trigger is_available(self@.map, self@.order, skip as int, self@.order.len() as int, q)]
                r@.contains(q) <==> is_available(self@.map, self@.order, skip as int, self@.order.len() as int, q),
    {
        self.available_spaces(skip, self.pos_list.len())
    }

    /// The cells where a room may go next: on the grid, empty, and next to a
    /// room placed at `skip` or later, and before `upto`. Each cell is listed
    /// once. For a layer advance these rooms are the layer before.
    pub fn available_spaces(&self, skip: usize, upto: usize) -> (r: Vec<Pos>)
        requires
            self.sound(),
        ensures
            r@.no_duplicates(),
            forall|q: Pos|
                #![trigger r@.contains(q)]
                #![trigger is_available(self@.map, self@.order, skip as int, upto as int, q)]
                r@.contains(q) <==> is_available(self@.map, self@.order, skip as int, upto as int, q),
    {
        let ghost m = self@.map;
        let ghost order = self@.order;
        let mut out: Vec<Pos> = Vec::new();
        let end = if upto < self.pos_list.len() {
            upto
        } else {
            self.pos_list.len()
        };
        if skip >= end {
            return out;
        }
        let h = self.node_map.height();
        let w = self.node_map.width();
        let mut i: usize = skip;
        while i < end
            invariant
                self.sound(),
                h == m.height,
                w == m.width,
                m == self@.map,
                order == self@.order,
                order == self.pos_list@,
                skip <= i <= end <= order.len(),
                end == upto || (end == order.len() && upto >= end),
                out@.no_duplicates(),
                forall|q: Pos|
                    #![trigger out@.contains(q)]
                    out@.contains(q) <==> collected(m, order, skip as int, i as int, Pos(0, 0), 0, q),
            decreases end - i,
        {
            let pos = self.pos_list[i];
            let mut k: usize = 0;
            while k < 4
                invariant
                    self.sound(),
                    h == m.height,
                    w == m.width,
                    m == self@.map,
                    order == self@.order,
                    order == self.pos_list@,
                    skip <= i < end <= order.len(),
                    pos == order[i as int],
                    m.in_bounds(pos),
                    k <= 4,
                    out@.no_duplicates(),
                    forall|q: Pos|
                        #![trigger out@.contains(q)]
                        out@.contains(q) <==> collected(m, order, skip as int, i as int, pos, k as int, q),
                decreases 4 - k,
            {
                let q = pos + direction(k);
                let free = match self.node_map.get_node(q) {
                    Some(_) => false,
                    None => true,
                };
                let inside = q.in_range(0, h - 1, 0, w - 1).is_some();
                let ghost before = out@;
                if inside && free && !contains_pos(&out, q) {
                    out.push(q);
                    assert forall|x: Pos| out@.contains(x) <==> before.contains(x) || x == q by {
                        lemma_seq_contains_after_push(before, q, x);
                    }
                }
                assert forall|x: Pos|
                    near_step(pos, k + 1, x) <==> near_step(pos, k as int, x) || x == q by {
                    if x == q {
                        assert(0 <= k < k + 1 && x == step(pos, k as int));
                    }
                }
                assert forall|x: Pos|
                    #![trigger out@.contains(x)]
                    out@.contains(x) <==> collected(m, order, skip as int, i as int, pos, k + 1, x) by {
                    assert(before.contains(x) <==> collected(m, order, skip as int, i as int, pos, k as int, x));
                }
                k += 1;
            }
            assert forall|q: Pos|
                near(order, skip as int, i + 1, q) <==> near(order, skip as int, i as int, q) || near_step(
                    pos,
                    4,
                    q,
                ) by {
                lemma_adjacent_steps(pos, q);
                if near(order, skip as int, i + 1, q) {
                    let j = choose|j: int|
                        0 <= j && skip <= j < i + 1 && j < order.len() && (#[trigger] order[j]).adjacent(q);
                }
            }
            assert forall|q: Pos| #![trigger out@.contains(q)]
                out@.contains(q) <==> collected(m, order, skip as int, i + 1, Pos(0, 0), 0, q) by {
                assert(near(order, skip as int, i + 1, q) <==> near(order, skip as int, i as int, q)
                    || near_step(pos, 4, q));
            }
            i += 1;
        }
        assert forall|q: Pos|
            #![trigger out@.contains(q)]
            #![trigger is_available(m, order, skip as int, upto as int, q)]
            out@.contains(q) <==> is_available(m, order, skip as int, upto as int, q) by {
            assert(out@.contains(q) <==> collected(m, order, skip as int, end as int, Pos(0, 0), 0, q));
            assert(near(order, skip as int, end as int, q) <==> near(order, skip as int, upto as int, q));
        }
        out
    }

    /// Places the next room of the current layer on a cell picked at random
    /// among those next to a room placed at `skip` or later, and before
    /// `upto`: for a layer advance, next to a room of the layer before. Rooms
    /// that the same advance placed are no such rooms. Without such a cell
    /// nothing changes and the step fails.
    pub fn generate_node(&mut self, skip: usize, upto: usize, rng: &mut ThreadRng) -> (r: Result<(), GenerateError>)
        requires
            old(self).sound(),
        ensures
            final(self).sound(),
            match r {
                Ok(_) => {
                    &&& final(self)@.order.len() == old(self)@.order.len() + 1
                    &&& is_available(
                        old(self)@.map,
                        old(self)@.order,
                        skip as int,
                        upto as int,
                        final(self)@.order.last(),
                    )
                    &&& final(self)@ == old(self)@.placed(final(self)@.order.last())
                },
                Err(e) => {
                    &&& e == GenerateError::NoSpace
                    &&& final(self)@ == old(self)@
                    &&& stuck(old(self)@.map, old(self)@.order, skip as int, upto as int)
                },
            },
    {
        let spaces = self.available_spaces(skip, upto);
        if spaces.len() == 0 {
            return Err(GenerateError::NoSpace);
        }
        let index = gen_range(rng, 0, spaces.len());
        let space = spaces[index];
        assert(spaces@.contains(space));
        self.place(space);
        Ok(())
    }

    /// One wiring pass over the rooms placed at `base` or later: each of
    /// their neighbours that the pass deals with, and that is not joined to
    /// them yet, gets a connection. No other connection is added. The number
    /// of connections added comes back.
    pub fn wire_pass(&mut self, base: usize, pass: Pass) -> (added: usize)
        requires
            old(self).sound(),
            layers_split(old(self)@, base as int),
            conns_ok(old(self)@.map),
        ensures
            final(self).sound(),
            wired_on(old(self)@, final(self)@, pass, added as int),
            added_touch(old(self)@, final(self)@, base as int),
            forall|t: int, d: int|
                base <= t < final(self)@.order.len() && 0 <= d < 4 ==> #[trigger] covered(
                    final(self)@.map,
                    final(self)@.order,
                    pass,
                    final(self)@.layer as int,
                    t,
                    d,
                ),
    {
        let ghost v0 = self@;
        let ghost order = self@.order;
        let ghost layer = self@.layer as int;
        let n = self.pos_list.len();
        let first = self.node_map.connection_count();
        let ghost mut added: int = 0;
        let mut t: usize = base;
        assert(self@.map.connections.take(self@.map.connections.len() as int) =~= self@.map.connections);
        while t < n
            invariant
                self.sound(),
                layers_split(v0, base as int),
                order == v0.order,
                layer == v0.layer,
                n == order.len(),
                self.pos_list@ == order,
                base <= t <= n,
                wired_on(v0, self@, pass, added),
                added_touch(v0, self@, base as int),
                forall|t2: int, d2: int|
                    base <= t2 < t && 0 <= d2 < 4 ==> #[trigger] covered(self@.map, order, pass, layer, t2, d2),
            decreases n - t,
        {
            let p = self.pos_list[t];
            let h = self.node_map.height();
            let w = self.node_map.width();
            let mut d: usize = 0;
            while d < 4
                invariant
                    self.sound(),
                    layers_split(v0, base as int),
                    order == v0.order,
                    layer == v0.layer,
                    n == order.len(),
                    self.pos_list@ == order,
                    base <= t < n,
                    p == order[t as int],
                    self@.map.in_bounds(p),
                    h == self@.map.height,
                    w == self@.map.width,
                    d <= 4,
                    wired_on(v0, self@, pass, added),
                    added_touch(v0, self@, base as int),
                    forall|t2: int, d2: int|
                        base <= t2 < t && 0 <= d2 < 4 ==> #[trigger] covered(
                            self@.map,
                            order,
                            pass,
                            layer,
                            t2,
                            d2,
                        ),
                    forall|d2: int|
                        0 <= d2 < d ==> #[trigger] covered(self@.map, order, pass, layer, t as int, d2),
                decreases 4 - d,
            {
                let q = p + direction(d);
                let ghost before = self@;
                let found: Option<u8> = match self.node_map.get_node(q) {
                    Some(node) => Some(node.layer),
                    None => None,
                };
                if let Some(lq) = found {
                    proof {
                        lemma_adjacent_steps(p, q);
                    }
                    let deals = match pass {
                        Pass::Previous => lq < self.layer && self.layer - lq == 1,
                        Pass::Same => lq == self.layer,
                        Pass::Other => lq < self.layer && self.layer - lq > 1,
                    };
                    if deals {
                        let line = Line(q, p);
                        let absent = self.node_map.get_connection(line).is_none();
                        if absent {
                            let state = match pass {
                                Pass::Previous => if self.layer >= 2 {
                                    ConnectState::Locked
                                } else {
                                    ConnectState::Open
                                },
                                Pass::Same => ConnectState::Open,
                                Pass::Other => ConnectState::Shortcut,
                            };
                            let conn = Connection { line, state };
                            proof {
                                lemma_wire_add(v0, before, pass, added, conn);
                            }
                            self.node_map.add_connection(conn);
                            proof {
                                added = added + 1;
                                assert forall|t2: int, d2: int|
                                    0 <= t2 < n && 0 <= d2 < 4 && covered(
                                        before.map,
                                        order,
                                        pass,
                                        layer,
                                        t2,
                                        d2,
                                    ) implies #[trigger] covered(self@.map, order, pass, layer, t2, d2) by {
                                    lemma_lookup_push(
                                        before.map.connections,
                                        conn,
                                        Line(step(order[t2], d2), order[t2]),
                                    );
                                }
                                lemma_lookup_push(before.map.connections, conn, line);
                                assert forall|i: int|
                                    v0.map.connections.len() <= i < self@.map.connections.len() implies touches_new(
                                    order,
                                    base as int,
                                    #[trigger] self@.map.connections[i],
                                ) by {
                                    if i < before.map.connections.len() {
                                        assert(self@.map.connections[i] == before.map.connections[i]);
                                    } else {
                                        assert(conn.line.touches(order[t as int]));
                                    }
                                }
                            }
                        }
                    }
                }
                d += 1;
            }
            t += 1;
        }
        self.node_map.connection_count() - first
    }

    /// Wires the rooms placed at `base` or later, the new layer, to their
    /// neighbours: first to the rooms of the layer before, by locks, or openly
    /// where the new layer is the first; then openly to each other; last, as
    /// shortcuts that nobody walks, to rooms further back. What comes back is
    /// the number of connections into the layer before.
    pub fn generate_connections(&mut self, base: usize) -> (locked: usize)
        requires
            old(self).sound(),
            layers_split(old(self)@, base as int),
            conns_ok(old(self)@.map),
        ensures
            final(self).sound(),
            wired(old(self)@, final(self)@, base as int, locked as int),
    {
        let ghost v0 = self@;
        let locked = self.wire_pass(base, Pass::Previous);
        let ghost v1 = self@;
        let _ = self.wire_pass(base, Pass::Same);
        let ghost v2 = self@;
        let _ = self.wire_pass(base, Pass::Other);
        proof {
            let v3 = self@;
            let n0 = v0.map.connections.len() as int;
            let n1 = v1.map.connections.len() as int;
            let n2 = v2.map.connections.len() as int;
            assert(v3.map.connections.take(n1) =~= v3.map.connections.take(n2).take(n1));
            assert(v3.map.connections.take(n0) =~= v3.map.connections.take(n1).take(n0));
            assert forall|k: int| #[trigger]
                count_locked(v3.map.rooms, v3.map.connections, k) == count_locked(
                    v0.map.rooms,
                    v0.map.connections,
                    k,
                ) + if k == v3.layer && v3.layer >= 2 {
                    locked as int
                } else {
                    0
                } by {
                assert(count_locked(v1.map.rooms, v1.map.connections, k) == count_locked(
                    v0.map.rooms,
                    v0.map.connections,
                    k,
                ) + if k == v1.layer && locks(Pass::Previous, v1.layer as int) {
                    locked as int
                } else {
                    0
                });
                assert(count_locked(v2.map.rooms, v2.map.connections, k) == count_locked(
                    v1.map.rooms,
                    v1.map.connections,
                    k,
                ));
                assert(count_locked(v3.map.rooms, v3.map.connections, k) == count_locked(
                    v2.map.rooms,
                    v2.map.connections,
                    k,
                ));
            }
            assert forall|i: int| n0 <= i < v3.map.connections.len() implies touches_new(
                v3.order,
                base as int,
                #[trigger] v3.map.connections[i],
            ) by {
                if i < n1 {
                    assert(v3.map.connections[i] == v3.map.connections.take(n1)[i]);
                } else if i < n2 {
                    assert(v3.map.connections[i] == v3.map.connections.take(n2)[i]);
                }
            }
            assert forall|t: int, d: int| base <= t < v3.order.len() && 0 <= d < 4 implies #[trigger] joined(
                v3.map,
                v3.order,
                t,
                d,
            ) by {
                let q = step(v3.order[t], d);
                if v3.map.rooms.dom().contains(q) {
                    assert(covered(v3.map, v3.order, Pass::Other, v3.layer as int, t, d));
                    lemma_covered_carries(v1, v3, Pass::Previous, t, d);
                    lemma_covered_carries(v2, v3, Pass::Same, t, d);
                }
            }
        }
        locked
    }

    /// The rooms placed from `from` up to `to` that hold no key, each once.
    pub fn key_candidates(&self, from: usize, to: usize) -> (r: Vec<Pos>)
        requires
            self.sound(),
            from <= to <= self@.order.len(),
        ensures
            r@.no_duplicates(),
            forall|p: Pos|
                #![trigger r@.contains(p)]
                r@.contains(p) <==> self@.map.rooms[p].key is None && exists|i: int|
                    from <= i < to && #[trigger] self@.order[i] == p,
    {
        let ghost order = self@.order;
        let ghost m = self@.map;
        let mut out: Vec<Pos> = Vec::new();
        let mut i: usize = from;
        while i < to
            invariant
                self.sound(),
                order == self@.order,
                order == self.pos_list@,
                m == self@.map,
                from <= i <= to <= order.len(),
                out@.no_duplicates(),
                forall|p: Pos|
                    #![trigger out@.contains(p)]
                    out@.contains(p) <==> m.rooms[p].key is None && exists|x: int|
                        from <= x < i && #[trigger] order[x] == p,
            decreases to - i,
        {
            let pos = self.pos_list[i];
            let free = match self.node_map.get_node(pos) {
                Some(node) => node.key.is_none(),
                None => false,
            };
            let ghost before = out@;
            if free {
                assert(!before.contains(pos));
                out.push(pos);
            }
            assert forall|p: Pos|
                #![trigger out@.contains(p)]
                out@.contains(p) <==> m.rooms[p].key is None && exists|x: int|
                    from <= x < i + 1 && #[trigger] order[x] == p by {
                assert(before.contains(p) <==> m.rooms[p].key is None && exists|x: int|
                    from <= x < i && #[trigger] order[x] == p);
                if free {
                    lemma_seq_contains_after_push(before, pos, p);
                }
                if exists|x: int| from <= x < i + 1 && #[trigger] order[x] == p {
                    let x = choose|x: int| from <= x < i + 1 && #[trigger] order[x] == p;
                    assert(order[x] == p);
                }
            }
            i += 1;
        }
        out
    }

    /// Lays the key of the current layer into each of the chosen rooms.
    pub fn place_keys(&mut self, chosen: &Vec<Pos>)
        requires
            old(self).sound(),
            forall|i: int| 0 <= i < chosen@.len() ==> old(self)@.map.rooms.dom().contains(#[trigger] chosen@[i]),
        ensures
            final(self).sound(),
            final(self)@ == old(self)@.with_keys(chosen@),
    {
        let ghost v0 = self@;
        let mut i: usize = 0;
        assert(self@.map.rooms =~= v0.with_keys(chosen@.take(0)).map.rooms);
        while i < chosen.len()
            invariant
                self.sound(),
                i <= chosen@.len(),
                forall|j: int| 0 <= j < chosen@.len() ==> v0.map.rooms.dom().contains(#[trigger] chosen@[j]),
                self@ == v0.with_keys(chosen@.take(i as int)),
            decreases chosen@.len() - i,
        {
            let pos = chosen[i];
            assert(self.node_map@.in_bounds(pos)) by {
                self.node_map.lemma_rooms_in_bounds();
            }
            let found: Option<Node> = match self.node_map.get_node(pos) {
                Some(node) => Some(*node),
                None => None,
            };
            if let Some(node) = found {
                self.node_map.set_node(pos, node.with_key(self.layer));
            }
            proof {
                let done = chosen@.take(i as int);
                let next = chosen@.take(i + 1);
                assert(next =~= done.push(pos));
                assert forall|p: Pos| next.contains(p) <==> done.contains(p) || p == pos by {
                    lemma_seq_contains_after_push(done, pos, p);
                }
                assert(self@.map.rooms =~= v0.with_keys(next).map.rooms);
            }
            i += 1;
        }
        assert(chosen@.take(i as int) =~= chosen@);
    }

    /// Lays `locked` keys of the current layer into rooms picked at random
    /// among the rooms placed before `base` that hold no key, the start room
    /// left out. Where there are fewer such rooms than keys, nothing changes
    /// and the step fails.
    pub fn distribute_keys(&mut self, base: usize, locked: usize, rng: &mut ThreadRng) -> (r: Result<
        (),
        GenerateError,
    >)
        requires
            old(self).sound(),
            1 <= base <= old(self)@.order.len(),
        ensures
            final(self).sound(),
            eligible(old(self)@, base as int).finite(),
            r is Err <==> eligible(old(self)@, base as int).len() < locked,
            match r {
                Ok(_) => exists|chosen: Seq<Pos>| #[trigger]
                    keys_given(old(self)@, final(self)@, base as int, locked as int, chosen),
                Err(e) => e == GenerateError::NoKeyRoom && final(self)@ == old(self)@,
            },
    {
        let ghost v0 = self@;
        let candidates = self.key_candidates(1, base);
        proof {
            assert(candidates@.to_set() =~= eligible(v0, base as int));
            candidates@.unique_seq_to_set();
        }
        if candidates.len() < locked {
            return Err(GenerateError::NoKeyRoom);
        }
        let chosen = pick_many(rng, &candidates, locked);
        proof {
            lemma_picked(candidates@, chosen@);
        }
        self.place_keys(&chosen);
        assert(keys_given(v0, self@, base as int, locked as int, chosen@));
        Ok(())
    }

    /// The rooms next to `pos`, each once.
    pub fn placed_neighbours(&self, pos: Pos) -> (r: Vec<Pos>)
        requires
            self.sound(),
            self@.map.in_bounds(pos),
        ensures
            forall|q: Pos|
                #![trigger r@.contains(q)]
                r@.contains(q) <==> self@.map.rooms.dom().contains(q) && pos.adjacent(q),
    {
        let ghost m = self@.map;
        let mut out: Vec<Pos> = Vec::new();
        let h = self.node_map.height();
        let w = self.node_map.width();
        let mut d: usize = 0;
        while d < 4
            invariant
                self.sound(),
                m == self@.map,
                m.in_bounds(pos),
                h == m.height,
                w == m.width,
                d <= 4,
                forall|q: Pos|
                    #![trigger out@.contains(q)]
                    out@.contains(q) <==> m.rooms.dom().contains(q) && near_step(pos, d as int, q),
            decreases 4 - d,
        {
            let q = pos + direction(d);
            let taken = match self.node_map.get_node(q) {
                Some(_) => true,
                None => false,
            };
            let ghost before = out@;
            if taken {
                out.push(q);
            }
            assert forall|x: Pos|
                #![trigger out@.contains(x)]
                out@.contains(x) <==> m.rooms.dom().contains(x) && near_step(pos, d + 1, x) by {
                if taken {
                    lemma_seq_contains_after_push(before, q, x);
                }
                if x == q {
                    assert(0 <= d < d + 1 && x == step(pos, d as int));
                }
            }
            d += 1;
        }
        assert forall|q: Pos| out@.contains(q) <==> m.rooms.dom().contains(q) && pos.adjacent(q) by {
            lemma_adjacent_steps(pos, q);
        }
        out
    }

    /// The snapshot of the next layer, derived from a copy of this one: a
    /// random number of rooms, each placed next to a room of this snapshot's
    /// latest layer; the new rooms wired to all their neighbours; and, from
    /// the second layer on, one
    /// key of the new layer for each lock into it, laid into rooms of earlier
    /// layers that hold no key yet, the start room left out.
    ///
    /// The advance fails where a room finds no cell: the rooms go to the free
    /// cells next to this snapshot's latest layer, each to another one, so that
    /// fewer such cells than the fewest rooms of a layer make the failure
    /// certain, and no fewer than the most rooms exclude it. The advance also
    /// fails where fewer rooms can take a key than there are locks, and where
    /// the next layer would have no number. This snapshot is untouched either
    /// way.
    pub fn generate_next_state(&self, rng: &mut ThreadRng) -> (r: Result<GeneratorState, GenerateError>)
        requires
            self.valid(),
        ensures
            frontier(self@).finite(),
            match r {
                Ok(next) => next.valid() && follows(self@, next@) && next@.amount <= frontier(self@).len(),
                Err(e) => match e {
                    GenerateError::TooManyLayers => self@.layer == u8::MAX,
                    GenerateError::NoSpace => self@.layer < u8::MAX && frontier(self@).len() < MAX_ROOMS,
                    GenerateError::NoKeyRoom => 0 < self@.layer < u8::MAX,
                    _ => false,
                },
            },
            self@.layer == u8::MAX ==> r == Err::<GeneratorState, GenerateError>(GenerateError::TooManyLayers),
            self@.layer < u8::MAX && frontier(self@).len() < MIN_ROOMS ==> r == Err::<GeneratorState, GenerateError>(
                GenerateError::NoSpace,
            ),
            self@.layer < u8::MAX && self@.order.len() + MIN_ROOMS > self@.map.width * self@.map.height ==> r
                == Err::<GeneratorState, GenerateError>(GenerateError::NoSpace),
    {
        proof {
            lemma_frontier_finite(self@);
        }
        if self.layer == u8::MAX {
            return Err(GenerateError::TooManyLayers);
        }
        let ghost v0 = self@;
        let mut next = self.clone();
        let amount = gen_range(rng, MIN_ROOMS, MAX_ROOMS + 1);
        next.begin_layer(amount);
        let base = self.pos_list.len();
        let skip = base - self.amount;
        assert(next@.order.take(base as int) =~= v0.order);
        let mut i: usize = 0;
        while i < amount
            invariant
                i <= amount,
                MIN_ROOMS <= amount <= MAX_ROOMS,
                self.valid(),
                v0 == self@,
                base == v0.order.len(),
                skip == base - v0.amount,
                next.sound(),
                next@.amount == amount,
                grown(v0, next@, i as int),
            decreases amount - i,
        {
            let ghost before = next@;
            proof {
                lemma_frontier(v0, before, i as int);
            }
            match next.generate_node(skip, base, rng) {
                Ok(_) => {
                    proof {
                        lemma_grown_step(v0, before, i as int, next@.order.last());
                    }
                },
                Err(e) => {
                    return Err(e);
                },
            }
            i += 1;
        }
        let ghost v1 = next@;
        proof {
            lemma_grown_wirable(v0, v1, amount as int);
            lemma_rooms_fit(v1.map, v1.order);
            lemma_frontier(v0, v1, amount as int);
        }
        let locked = next.generate_connections(base);
        let ghost v2 = next@;
        if self.layer == 0 {
            proof {
                lemma_count_none(v1.map.rooms, v1.map.connections, v1.layer as int);
                let none = Seq::<Pos>::empty();
                lemma_advanced(v0, v1, v2, v2, none, 0);
                lemma_advanced_basics(v0, v1, v2, v2, none, 0);
            }
            return Ok(next);
        }
        match next.distribute_keys(base, locked, rng) {
            Ok(_) => {},
            Err(e) => {
                return Err(e);
            },
        }
        proof {
            let chosen = choose|chosen: Seq<Pos>| #[trigger] keys_given(v2, next@, base as int, locked as int, chosen);
            lemma_advanced(v0, v1, v2, next@, chosen, locked as int);
            lemma_advanced_basics(v0, v1, v2, next@, chosen, locked as int);
        }
        Ok(next)
    }

    /// The closing snapshot, derived from a copy of this one: the terminal
    /// room, of a layer of its own, on a cell picked at random among the free
    /// cells next to any room; one lock from it to a room next to it, picked at
    /// random; and the terminal layer's key in a room of this snapshot's latest
    /// layer, picked at random.
    ///
    /// This fails exactly where no free cell lies next to any room, which is
    /// where the rooms fill the grid, and where the terminal layer would have
    /// no number.
    pub fn generate_final_state(&self, rng: &mut ThreadRng) -> (r: Result<GeneratorState, GenerateError>)
        requires
            self.valid(),
        ensures
            match r {
                Ok(last) => last.sound() && exists|neighbour: Pos, holder: Pos| #[trigger]
                    sealed(self@, last@, neighbour, holder),
                Err(e) => e == if self@.layer == u8::MAX {
                    GenerateError::TooManyLayers
                } else {
                    GenerateError::NoEndSpace
                },
            },
            r is Err <==> self@.layer == u8::MAX || stuck(self@.map, self@.order, 0, self@.order.len() as int),
            r is Err <==> self@.layer == u8::MAX || self@.order.len() == self@.map.width * self@.map.height,
    {
        if self.layer == u8::MAX {
            return Err(GenerateError::TooManyLayers);
        }
        let ghost v0 = self@;
        proof {
            lemma_full_iff_stuck(v0.map, v0.order);
        }
        let spaces = self.available_spaces_with_skip(0);
        let end_pos = match pick_one(rng, &spaces) {
            Some(pos) => pos,
            None => {
                assert forall|q: Pos| !#[trigger] is_available(v0.map, v0.order, 0, v0.order.len() as int, q) by {}
                return Err(GenerateError::NoEndSpace);
            },
        };
        assert(spaces@.contains(end_pos));
        assert(is_available(v0.map, v0.order, 0, v0.order.len() as int, end_pos));
        let neighbours = self.placed_neighbours(end_pos);
        proof {
            let j = choose|j: int|
                0 <= j && 0 <= j < v0.order.len() && j < v0.order.len() && (#[trigger] v0.order[j]).adjacent(end_pos);
            lemma_adjacent_steps(v0.order[j], end_pos);
            assert(neighbours@.contains(v0.order[j]));
        }
        let neighbour = match pick_one(rng, &neighbours) {
            Some(pos) => pos,
            None => {
                // not reached: the cell was picked for the room next to it
                return Err(GenerateError::NoEndSpace);
            },
        };
        assert(neighbours@.contains(neighbour));
        assert(v0.map.rooms.dom().contains(neighbour) && end_pos.adjacent(neighbour));
        let base = self.pos_list.len();
        let holders = self.key_candidates(base - self.amount, base);
        proof {
            let x = base - 1;
            assert(v0.map.rooms.dom().contains(v0.order[x]));
            assert(layer_of(v0.map, v0.order[x]) == v0.layer);
            assert(v0.map.rooms[v0.order[x]].key is None);
            assert(holders@.contains(v0.order[x]));
        }
        let holder = match pick_one(rng, &holders) {
            Some(pos) => pos,
            None => {
                // not reached: the rooms of the latest layer hold no key yet
                return Err(GenerateError::NoEndSpace);
            },
        };
        assert(holders@.contains(holder));
        let ghost x = choose|x: int| base - v0.amount <= x < base && #[trigger] v0.order[x] == holder;
        assert(v0.map.rooms.dom().contains(v0.order[x]));
        assert(holder != end_pos);
        let mut last = self.clone();
        last.begin_layer(1);
        last.place(end_pos);
        assert(last@.map.rooms.dom().contains(holder));
        assert(last@.map.rooms[holder] == v0.map.rooms[holder]);
        let ghost placed = last@;
        last.node_map.add_connection(Connection { line: Line(end_pos, neighbour), state: ConnectState::Locked });
        let found: Option<Node> = match last.node_map.get_node(holder) {
            Some(node) => Some(*node),
            None => None,
        };
        if let Some(node) = found {
            last.node_map.set_node(holder, node.with_key(last.layer));
        }
        proof {
            assert(last@.order == v0.order.push(end_pos));
            assert forall|p: Pos| #[trigger] last@.map.rooms.dom().contains(p) <==> last@.order.contains(p) by {
                assert(placed.map.rooms.dom().contains(p) <==> placed.order.contains(p));
            }
            assert(listed(last@.map, last@.order));
            assert(last@.map.connections == v0.map.connections.push(
                Connection { line: Line(end_pos, neighbour), state: ConnectState::Locked },
            ));
            assert(last@.map.rooms == v0.map.rooms.insert(end_pos, Node { layer: last@.layer as u8, key: None }).insert(
                holder,
                Node { layer: v0.map.rooms[holder].layer, key: Some(last@.layer as u8) },
            ));
            assert(neighbour.adjacent(end_pos)) by {
                lemma_adjacent_steps(end_pos, neighbour);
            }
            assert(v0.order.len() - v0.amount <= x < v0.order.len() && v0.order[x] == holder);
            assert(v0.map.rooms[holder].key is None);
            assert(last@.order.last() == end_pos);
            assert(sealed(v0, last@, neighbour, holder));
        }
        Ok(last)
    }
}

/// What a run does with the outcome of a layer advance. A new snapshot goes
/// on top of the snapshots so far, and the retries stay as they are. A failure
/// costs one retry and takes the latest snapshot away, so that the run falls
/// back to the one before; the first snapshot stays, for there is none before
/// it. What comes back is the number of retries that is left; below zero the
/// run is to give up.
pub fn settle(
    stack: &mut Vec<GeneratorState>,
    retries_left: i32,
    outcome: Result<GeneratorState, GenerateError>,
) -> (left: i32)
    requires
        old(stack)@.len() >= 1,
        0 <= retries_left <= RETRIES,
    ensures
        match outcome {
            Ok(next) => left == retries_left && final(stack)@ == old(stack)@.push(next),
            Err(_) => left == retries_left - 1 && final(stack)@ == (if old(stack)@.len() > 1 {
                old(stack)@.drop_last()
            } else {
                old(stack)@
            }),
        },
{
    match outcome {
        Ok(next) => {
            stack.push(next);
            retries_left
        },
        Err(_) => {
            if stack.len() > 1 {
                stack.pop();
            }
            retries_left - 1
        },
    }
}

impl NodeMap {
    /// Generates a map of the given extents with `layers` layers behind the
    /// start room and a terminal room behind them, with the thread's random
    /// source. An error comes back as its text.
    pub fn generate(width: isize, height: isize, layers: u8) -> (r: Result<NodeMap, String>)
        requires
            width > 0,
            height > 0,
        ensures
            match r {
                Ok(map) => map.wf() && map@.width == width && map@.height == height && solved(map@, layers + 1),
                Err(text) => exists|e: GenerateError|
                    may_fail_with(width as int, height as int, layers as int, e) && text@ == #[trigger] e.text(),
            },
            fails(width as int, height as int, layers as int) ==> r is Err && r->Err_0@ == run_error(
                width as int,
                height as int,
                layers as int,
            ).text(),
            succeeds(width as int, height as int, layers as int) ==> r is Ok,
    {
        let mut rng = rand::thread_rng();
        match NodeMap::generate_with(&mut rng, width, height, layers) {
            Ok(map) => Ok(map),
            Err(e) => {
                let text = e.message();
                Err(text)
            },
        }
    }

    /// Generates a map with the given random source.
    ///
    /// From a start room on a random cell the layers are advanced one after
    /// the other, and `settle` decides what becomes of each advance: one that
    /// fails costs one retry and sends the run back to the snapshot before the
    /// one it started from, or leaves it at the start room where there is none
    /// before. With the last layer reached the map is closed off by the
    /// terminal room.
    ///
    /// A run on a single cell cannot succeed; neither can one with a layer to
    /// place on a grid of fewer than three rows or fewer than three columns,
    /// where the start room has too few cells next to it, nor one whose grid
    /// has more cells than can be counted, nor one whose terminal layer would
    /// have no number. A run without layers on a grid of more than one cell
    /// cannot fail. Of all others the outcome is up to chance: they fail when
    /// the retries run out, or when the grid is full before the terminal room
    /// is placed.
    pub fn generate_with(rng: &mut ThreadRng, width: isize, height: isize, layers: u8) -> (r: Result<
        NodeMap,
        GenerateError,
    >)
        requires
            width > 0,
            height > 0,
        ensures
            match r {
                Ok(map) => map.wf() && map@.width == width && map@.height == height && solved(map@, layers + 1),
                Err(e) => may_fail_with(width as int, height as int, layers as int, e),
            },
            fails(width as int, height as int, layers as int) ==> r == Err::<NodeMap, GenerateError>(
                run_error(width as int, height as int, layers as int),
            ),
            succeeds(width as int, height as int, layers as int) ==> r is Ok,
    {
        if layers == u8::MAX {
            return Err(GenerateError::TooManyLayers);
        }
        if (width as usize).checked_mul(height as usize).is_none() {
            return Err(GenerateError::GridTooLarge);
        }
        let row = gen_range(rng, 0, height as usize);
        let col = gen_range(rng, 0, width as usize);
        let start = Pos(row as isize, col as isize);
        let root = GeneratorState::root(width as usize, height as usize, start);
        let ghost first = root@;
        let mut stack: Vec<GeneratorState> = Vec::new();
        stack.push(root);
        let mut depth: u8 = 0;
        let mut retries_left: i32 = RETRIES;
        while depth < layers && retries_left >= 0
            invariant
                width > 0,
                height > 0,
                layers < u8::MAX,
                depth <= layers,
                stack@.len() == depth + 1,
                -1 <= retries_left <= RETRIES,
                layers == 0 ==> retries_left >= 0,
                stack@[0]@ == first,
                first.order.len() == 1,
                first.amount == 1,
                width < 3 || height < 3 ==> depth == 0,
                forall|i: int|
                    0 <= i < stack@.len() ==> {
                        &&& (#[trigger] stack@[i]).valid()
                        &&& stack@[i]@.layer == i
                        &&& stack@[i]@.map.width == width
                        &&& stack@[i]@.map.height == height
                    },
            decreases retries_left + 1, layers - depth,
        {
            let ghost before = stack@;
            proof {
                if width < 3 || height < 3 {
                    lemma_narrow_frontier(first);
                }
            }
            let outcome = stack[depth as usize].generate_next_state(rng);
            let ghost advanced = outcome;
            retries_left = settle(&mut stack, retries_left, outcome);
            depth = (stack.len() - 1) as u8;
            proof {
                match advanced {
                    Ok(next) => {
                        assert(stack@ == before.push(next));
                    },
                    Err(_) => {
                        assert(stack@ == if before.len() > 1 {
                            before.drop_last()
                        } else {
                            before
                        });
                    },
                }
                assert forall|i: int| 0 <= i < stack@.len() implies {
                    &&& (#[trigger] stack@[i]).valid()
                    &&& stack@[i]@.layer == i
                    &&& stack@[i]@.map.width == width
                    &&& stack@[i]@.map.height == height
                } by {
                    if i < before.len() {
                        assert(stack@[i] == before[i]);
                    }
                }
            }
        }
        if retries_left < 0 {
            return Err(GenerateError::RetriesExhausted);
        }
        // the last layer is reached
        proof {
            assert(width * height >= 1) by (nonlinear_arith)
                requires
                    width > 0,
                    height > 0,
            ;
            assert(width * height == 1 ==> width == 1) by (nonlinear_arith)
                requires
                    width > 0,
                    height > 0,
            ;
            let top = stack@[depth as int]@;
            assert(top.map.width * top.map.height == width * height);
            if layers == 0 {
                assert(top.order.len() == 1);
            } else {
                assert(depth > 0 && !(width < 3 || height < 3));
            }
        }
        match stack[depth as usize].generate_final_state(rng) {
            Ok(last) => {
                proof {
                    let v0 = stack@[depth as int]@;
                    let (neighbour, holder) = choose|neighbour: Pos, holder: Pos| #[trigger]
                        sealed(v0, last@, neighbour, holder);
                    lemma_sealed_solved(v0, last@, neighbour, holder);
                }
                Ok(last.into_map())
            },
            Err(e) => Err(e),
        }
    }
}

} // verus!
