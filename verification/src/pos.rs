//! Grid coordinates, undirected edges between them, and typed connections.

use vstd::prelude::*;
use vstd::std_specs::cmp::PartialEqSpecImpl;
use vstd::std_specs::ops::{AddSpecImpl, MulSpecImpl};

verus! {

/// A cell of the grid: row first, column second. Coordinates are unconstrained;
/// whether a position lies on a given grid is the grid's business.
#[derive(Debug, Copy, Clone, PartialEq, Eq, Structural, Hash)]
pub struct Pos(pub isize, pub isize);

impl Default for Pos {
    fn default() -> (r: Pos)
        ensures
            r == Pos(0, 0),
    {
        Pos(0, 0)
    }
}

impl Pos {
    /// Whether the position lies in the closed rectangle of rows `row1..=row2`
    /// and columns `col1..=col2`.
    pub open spec fn within(self, row1: int, row2: int, col1: int, col2: int) -> bool {
        row1 <= self.0 <= row2 && col1 <= self.1 <= col2
    }

    /// Whether the two positions are neighbours along a row or a column.
    pub open spec fn adjacent(self, other: Pos) -> bool {
        ||| self.0 == other.0 && (self.1 - other.1 == 1 || other.1 - self.1 == 1)
        ||| self.1 == other.1 && (self.0 - other.0 == 1 || other.0 - self.0 == 1)
    }

    /// The position itself when it lies inside the closed rectangle, nothing
    /// otherwise.
    pub fn in_range(&self, row1: isize, row2: isize, col1: isize, col2: isize) -> (r: Option<Pos>)
        ensures
            r == if self.within(row1 as int, row2 as int, col1 as int, col2 as int) {
                Some(*self)
            } else {
                None
            },
    {
        if self.0 >= row1 && self.0 <= row2 && self.1 >= col1 && self.1 <= col2 {
            Some(*self)
        } else {
            None
        }
    }
}

impl AddSpecImpl<Pos> for Pos {
    open spec fn obeys_add_spec() -> bool {
        true
    }

    open spec fn add_req(self, rhs: Pos) -> bool {
        &&& isize::MIN <= self.0 + rhs.0 <= isize::MAX
        &&& isize::MIN <= self.1 + rhs.1 <= isize::MAX
    }

    open spec fn add_spec(self, rhs: Pos) -> Pos {
        Pos((self.0 + rhs.0) as isize, (self.1 + rhs.1) as isize)
    }
}

impl core::ops::Add<Pos> for Pos {
    type Output = Pos;

    /// Component-wise sum.
    fn add(self, rhs: Pos) -> (r: Pos) {
        Pos(self.0 + rhs.0, self.1 + rhs.1)
    }
}

impl MulSpecImpl<isize> for Pos {
    open spec fn obeys_mul_spec() -> bool {
        true
    }

    open spec fn mul_req(self, rhs: isize) -> bool {
        &&& isize::MIN <= self.0 * rhs <= isize::MAX
        &&& isize::MIN <= self.1 * rhs <= isize::MAX
    }

    open spec fn mul_spec(self, rhs: isize) -> Pos {
        Pos((self.0 * rhs) as isize, (self.1 * rhs) as isize)
    }
}

impl core::ops::Mul<isize> for Pos {
    type Output = Pos;

    /// Both components scaled by `rhs`.
    fn mul(self, rhs: isize) -> (r: Pos) {
        Pos(self.0 * rhs, self.1 * rhs)
    }
}

/// An undirected edge between two positions. Which endpoint is written first
/// does not matter: `==` treats `(a, b)` and `(b, a)` alike.
#[derive(Copy, Clone, Debug, Eq)]
pub struct Line(pub Pos, pub Pos);

impl Line {
    /// Whether the two edges join the same pair of positions, in either order.
    pub open spec fn same_edge(self, other: Line) -> bool {
        ||| self.0 == other.0 && self.1 == other.1
        ||| self.0 == other.1 && self.1 == other.0
    }

    /// Whether `pos` is one of the two endpoints.
    pub open spec fn touches(self, pos: Pos) -> bool {
        self.0 == pos || self.1 == pos
    }
}

impl PartialEqSpecImpl for Line {
    open spec fn obeys_eq_spec() -> bool {
        true
    }

    open spec fn eq_spec(&self, other: &Line) -> bool {
        self.same_edge(*other)
    }
}

impl PartialEq for Line {
    fn eq(&self, other: &Line) -> (r: bool) {
        self.0 == other.0 && self.1 == other.1 || self.0 == other.1 && self.1 == other.0
    }
}

/// How a connection may be passed.
#[derive(Copy, Clone, Debug, PartialEq, Eq, Structural, Hash)]
pub enum ConnectState {
    /// Freely traversable.
    Open,
    /// Traversable only with the key of the layer it leads into.
    Locked,
    /// Two neighbouring rooms that are deliberately not joined. It is recorded
    /// so that a renderer can hint at the blocked adjacency; nobody walks it.
    Shortcut,
}

/// An edge together with the way it may be passed.
#[derive(Copy, Clone, Debug, Eq)]
pub struct Connection {
    pub line: Line,
    pub state: ConnectState,
}

impl PartialEqSpecImpl for Connection {
    open spec fn obeys_eq_spec() -> bool {
        true
    }

    open spec fn eq_spec(&self, other: &Connection) -> bool {
        self.line.same_edge(other.line) && self.state == other.state
    }
}

impl PartialEq for Connection {
    fn eq(&self, other: &Connection) -> (r: bool) {
        self.line == other.line && self.state == other.state
    }
}

/// Swapping the endpoints of an edge gives an equal edge.
pub proof fn lemma_edge_symmetric(a: Pos, b: Pos)
    ensures
        Line(a, b).same_edge(Line(b, a)),
        vstd::std_specs::cmp::PartialEqSpec::eq_spec(&Line(a, b), &Line(b, a)),
{
}

/// Edge equality is an equivalence: reflexive, symmetric and transitive.
pub proof fn lemma_edge_equivalence(x: Line, y: Line, z: Line)
    ensures
        x.same_edge(x),
        x.same_edge(y) ==> y.same_edge(x),
        x.same_edge(y) && y.same_edge(z) ==> x.same_edge(z),
{
}

} // verus!
