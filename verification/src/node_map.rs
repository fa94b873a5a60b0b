//! The room map: a grid of rooms and the connections between them.

use crate::node::Node;
use crate::pos::{Connection, Line, Pos};
use vstd::prelude::*;

verus! {

/// What a room map holds, as mathematics: the extents of the grid, the rooms
/// by position, and the connections in the order in which they were added.
pub struct MapView {
    pub width: int,
    pub height: int,
    pub rooms: Map<Pos, Node>,
    pub connections: Seq<Connection>,
}

/// The first connection of `conns` that joins the endpoints of `edge`, in
/// either order.
pub open spec fn lookup(conns: Seq<Connection>, edge: Line) -> Option<Connection>
    decreases conns.len(),
{
    if conns.len() == 0 {
        None
    } else {
        match lookup(conns.drop_last(), edge) {
            Some(c) => Some(c),
            None => if conns.last().line.same_edge(edge) {
                Some(conns.last())
            } else {
                None
            },
        }
    }
}

impl MapView {
    /// Whether `pos` is a cell of the grid.
    pub open spec fn in_bounds(self, pos: Pos) -> bool {
        0 <= pos.0 < self.height && 0 <= pos.1 < self.width
    }

    /// The room at `pos`, if there is one.
    pub open spec fn room_at(self, pos: Pos) -> Option<Node> {
        if self.rooms.dom().contains(pos) {
            Some(self.rooms[pos])
        } else {
            None
        }
    }

    /// The connection found for `edge`, if there is one.
    pub open spec fn connection_at(self, edge: Line) -> Option<Connection> {
        lookup(self.connections, edge)
    }

    /// The same map with `node` at `pos`.
    pub open spec fn with_room(self, pos: Pos, node: Node) -> MapView {
        MapView { rooms: self.rooms.insert(pos, node), ..self }
    }

    /// The same map with `conn` added behind the other connections.
    pub open spec fn with_connection(self, conn: Connection) -> MapView {
        MapView { connections: self.connections.push(conn), ..self }
    }
}

/// A lookup finds nothing exactly when no connection joins the edge's
/// endpoints; what it finds is a connection of the sequence that does.
pub proof fn lemma_lookup(conns: Seq<Connection>, edge: Line)
    ensures
        lookup(conns, edge) is None <==> forall|i: int|
            0 <= i < conns.len() ==> !(#[trigger] conns[i]).line.same_edge(edge),
        lookup(conns, edge) matches Some(c) ==> c.line.same_edge(edge) && exists|i: int|
            0 <= i < conns.len() && #[trigger] conns[i] == c && forall|j: int|
                0 <= j < i ==> !(#[trigger] conns[j]).line.same_edge(edge),
    decreases conns.len(),
{
    if conns.len() > 0 {
        let front = conns.drop_last();
        lemma_lookup(front, edge);
        assert(forall|i: int| 0 <= i < front.len() ==> front[i] == conns[i]);
    }
}

/// Equal edges find the same connection.
pub proof fn lemma_lookup_same_edge(conns: Seq<Connection>, e1: Line, e2: Line)
    requires
        e1.same_edge(e2),
    ensures
        lookup(conns, e1) == lookup(conns, e2),
    decreases conns.len(),
{
    if conns.len() > 0 {
        lemma_lookup_same_edge(conns.drop_last(), e1, e2);
    }
}

/// A grid of rooms, some cells empty, and the connections between rooms.
pub struct NodeMap {
    nodes: Vec<Option<Node>>,
    connections: Vec<Connection>,
    width: isize,
    height: isize,
}

/// The place of a cell in the row-major sequence of cells.
pub open spec fn cell_index(width: int, pos: Pos) -> int {
    pos.0 * width + pos.1
}

/// The place of a cell of the grid lies within the sequence of cells.
proof fn lemma_cell_index(width: int, height: int, pos: Pos)
    requires
        0 <= pos.0 < height,
        0 <= pos.1 < width,
    ensures
        0 <= cell_index(width, pos) < width * height,
        pos.0 * width >= 0,
{
    assert(pos.0 * width >= 0) by (nonlinear_arith)
        requires
            pos.0 >= 0,
            width >= 0,
    ;
    assert(pos.0 * width + width <= height * width) by (nonlinear_arith)
        requires
            pos.0 + 1 <= height,
            width >= 0,
    ;
}

/// Two cells with the same place in the sequence of cells are one cell.
proof fn lemma_cell_index_injective(width: int, p: Pos, q: Pos)
    requires
        0 <= p.1 < width,
        0 <= q.1 < width,
        cell_index(width, p) == cell_index(width, q),
    ensures
        p == q,
{
    if p.0 != q.0 {
        if p.0 < q.0 {
            assert(p.0 * width + width <= q.0 * width) by (nonlinear_arith)
                requires
                    p.0 + 1 <= q.0,
                    width >= 0,
            ;
        } else {
            assert(q.0 * width + width <= p.0 * width) by (nonlinear_arith)
                requires
                    q.0 + 1 <= p.0,
                    width >= 0,
            ;
        }
    }
}

impl View for NodeMap {
    type V = MapView;

    closed spec fn view(&self) -> MapView {
        MapView {
            width: self.width as int,
            height: self.height as int,
            rooms: Map::new(
                |pos: Pos|
                    0 <= pos.0 < self.height && 0 <= pos.1 < self.width && 0 <= cell_index(
                        self.width as int,
                        pos,
                    ) < self.nodes@.len() && self.nodes@[cell_index(self.width as int, pos)] is Some,
                |pos: Pos| self.nodes@[cell_index(self.width as int, pos)]->0,
            ),
            connections: self.connections@,
        }
    }
}

impl NodeMap {
    /// The map is sound: the grid has as many cells as its extents say.
    pub closed spec fn wf(&self) -> bool {
        &&& 0 <= self.width
        &&& 0 <= self.height
        &&& self.nodes@.len() == self.width * self.height
    }

    /// Every room of a sound map lies on the grid, and the extents are not
    /// negative. Two rooms cannot share a cell: rooms are kept by position.
    pub proof fn lemma_rooms_in_bounds(&self)
        requires
            self.wf(),
        ensures
            0 <= self@.width <= isize::MAX,
            0 <= self@.height <= isize::MAX,
            forall|pos: Pos| #[trigger] self@.rooms.dom().contains(pos) ==> self@.in_bounds(pos),
            forall|pos: Pos| self@.room_at(pos) is Some ==> self@.in_bounds(pos),
    {
    }

    /// An empty grid of the given extents, without connections.
    pub fn with_size(width: usize, height: usize) -> (r: NodeMap)
        requires
            width <= isize::MAX,
            height <= isize::MAX,
            width * height <= usize::MAX,
        ensures
            r.wf(),
            r@.width == width,
            r@.height == height,
            r@.rooms == Map::<Pos, Node>::empty(),
            r@.connections == Seq::<Connection>::empty(),
    {
        let total = width * height;
        let mut nodes: Vec<Option<Node>> = Vec::new();
        let mut i: usize = 0;
        while i < total
            invariant
                i <= total,
                nodes@.len() == i,
                forall|k: int| 0 <= k < i ==> nodes@[k] is None,
            decreases total - i,
        {
            nodes.push(None);
            i += 1;
        }
        let r = NodeMap { nodes, connections: Vec::new(), width: width as isize, height: height as isize };
        r
    }

    /// The number of columns.
    pub fn width(&self) -> (r: isize)
        ensures
            r == self@.width,
    {
        self.width
    }

    /// The number of rows.
    pub fn height(&self) -> (r: isize)
        ensures
            r == self@.height,
    {
        self.height
    }

    /// The room at `pos`. Nothing comes back for a position off the grid and
    /// for an empty cell alike.
    pub fn get_node(&self, pos: Pos) -> (r: Option<&Node>)
        requires
            self.wf(),
        ensures
            match r {
                Some(node) => self@.room_at(pos) == Some(*node),
                None => self@.room_at(pos) is None,
            },
    {
        if pos.0 < 0 || pos.0 >= self.height || pos.1 < 0 || pos.1 >= self.width {
            return None;
        }
        proof {
            lemma_cell_index(self.width as int, self.height as int, pos);
            assert(self.nodes@.len() == self.nodes.len() <= usize::MAX);
        }
        let index = (pos.0 as usize) * (self.width as usize) + (pos.1 as usize);
        match &self.nodes[index] {
            Some(node) => Some(node),
            None => None,
        }
    }

    /// Puts `node` at `pos`, over whatever was there. The position has to lie
    /// on the grid.
    pub fn set_node(&mut self, pos: Pos, node: Node)
        requires
            old(self).wf(),
            old(self)@.in_bounds(pos),
        ensures
            final(self).wf(),
            final(self)@ == old(self)@.with_room(pos, node),
    {
        proof {
            lemma_cell_index(self.width as int, self.height as int, pos);
            assert(self.nodes@.len() == self.nodes.len() <= usize::MAX);
        }
        let index = (pos.0 as usize) * (self.width as usize) + (pos.1 as usize);
        self.nodes.set(index, Some(node));
        proof {
            let w = self.width as int;
            assert forall|q: Pos| #[trigger]
                self@.rooms.dom().contains(q) == old(self)@.rooms.insert(pos, node).dom().contains(
                    q,
                ) && (self@.rooms.dom().contains(q) ==> self@.rooms[q] == old(self)@.rooms.insert(
                    pos,
                    node,
                )[q]) by {
                if 0 <= q.0 < self.height && 0 <= q.1 < self.width {
                    lemma_cell_index(w, self.height as int, q);
                    if cell_index(w, q) == cell_index(w, pos) {
                        lemma_cell_index_injective(w, q, pos);
                    }
                }
            }
            assert(self@.rooms =~= old(self)@.rooms.insert(pos, node));
        }
    }

    /// The first connection that joins the endpoints of `line`, in either
    /// order.
    pub fn get_connection(&self, line: Line) -> (r: Option<&Connection>)
        ensures
            match r {
                Some(conn) => self@.connection_at(line) == Some(*conn),
                None => self@.connection_at(line) is None,
            },
    {
        let mut i: usize = 0;
        while i < self.connections.len()
            invariant
                i <= self.connections@.len(),
                lookup(self.connections@.take(i as int), line) is None,
            decreases self.connections@.len() - i,
        {
            let ghost front = self.connections@.take(i as int);
            let ghost upto = self.connections@.take(i + 1);
            assert(upto.drop_last() =~= front);
            if line == self.connections[i].line {
                proof {
                    lemma_lookup_same_edge(upto, line, line);
                    lemma_lookup_prefix(self.connections@, i + 1, line);
                }
                return Some(&self.connections[i]);
            }
            i += 1;
        }
        assert(self.connections@.take(i as int) =~= self.connections@);
        None
    }

    /// Adds `conn` behind the other connections. Whether the edge is joined
    /// already is not looked at.
    pub fn add_connection(&mut self, conn: Connection)
        ensures
            final(self).wf() == old(self).wf(),
            final(self)@ == old(self)@.with_connection(conn),
    {
        self.connections.push(conn);
    }

    /// The connections, in the order in which they were added.
    pub fn connections(&self) -> (r: &Vec<Connection>)
        ensures
            r@ == self@.connections,
    {
        &self.connections
    }

    /// The number of connections.
    pub fn connection_count(&self) -> (r: usize)
        ensures
            r == self@.connections.len(),
    {
        self.connections.len()
    }

}

impl Clone for NodeMap {
    /// A map that holds the same rooms and connections.
    fn clone(&self) -> (r: NodeMap)
        ensures
            r@ == self@,
            r.wf() == self.wf(),
    {
        let mut nodes: Vec<Option<Node>> = Vec::new();
        let mut i: usize = 0;
        while i < self.nodes.len()
            invariant
                i <= self.nodes@.len(),
                nodes@ == self.nodes@.take(i as int),
            decreases self.nodes@.len() - i,
        {
            nodes.push(self.nodes[i]);
            i += 1;
        }
        let mut connections: Vec<Connection> = Vec::new();
        let mut j: usize = 0;
        while j < self.connections.len()
            invariant
                j <= self.connections@.len(),
                connections@ == self.connections@.take(j as int),
            decreases self.connections@.len() - j,
        {
            connections.push(self.connections[j]);
            j += 1;
        }
        assert(connections@ =~= self.connections@);
        let r = NodeMap { nodes, connections, width: self.width, height: self.height };
        assert(r@.rooms =~= self@.rooms);
        r
    }
}

/// What a lookup finds in a front part of the connections, it finds in all of
/// them.
pub proof fn lemma_lookup_prefix(conns: Seq<Connection>, n: int, edge: Line)
    requires
        0 <= n <= conns.len(),
        lookup(conns.take(n), edge) is Some,
    ensures
        lookup(conns, edge) == lookup(conns.take(n), edge),
    decreases conns.len() - n,
{
    if n < conns.len() {
        assert(conns.take(n + 1).drop_last() =~= conns.take(n));
        lemma_lookup_prefix(conns, n + 1, edge);
    } else {
        assert(conns.take(n) =~= conns);
    }
}

/// What a lookup finds after one more connection was added.
pub proof fn lemma_lookup_push(conns: Seq<Connection>, c: Connection, edge: Line)
    ensures
        lookup(conns.push(c), edge) == match lookup(conns, edge) {
            Some(x) => Some(x),
            None => if c.line.same_edge(edge) {
                Some(c)
            } else {
                None
            },
        },
{
    assert(conns.push(c).drop_last() =~= conns);
}

} // verus!
