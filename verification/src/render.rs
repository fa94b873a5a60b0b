//! What a renderer draws for each part of a cell: which glyph, and in which
//! tint. Turning glyphs and tints into text is left to the caller.

use crate::layers::{direction, step};
use crate::node::Node;
use crate::node_map::{MapView, NodeMap};
use crate::pos::{Connection, ConnectState, Line, Pos};
use vstd::prelude::*;

verus! {

/// The number of tints that the palette holds. A layer from this number on
/// has no tint.
pub const PALETTE_SIZE: u8 = 9;

/// What is drawn.
#[derive(Copy, Clone, Debug, PartialEq, Eq, Structural)]
pub enum Glyph {
    /// One blank.
    Space,
    /// An open or locked connection between two rows.
    ConnV,
    /// An open or locked connection between two columns.
    ConnH,
    /// A lock.
    Lock,
    /// A blocked adjacency between two rows.
    HintV,
    /// A blocked adjacency between two columns.
    HintH,
    /// The upper edge of a room, three characters wide.
    BoxTop,
    /// The left or right edge of a room.
    BoxSide,
    /// The lower edge of a room, three characters wide.
    BoxBottom,
    /// A key.
    Key,
    /// Three blanks, where a room's edge would be.
    Gap,
}

/// How it is tinted.
#[derive(Copy, Clone, Debug, PartialEq, Eq, Structural)]
pub enum Tint {
    /// Not at all.
    Plain,
    /// Dim grey.
    Grey,
    /// The tint of a layer.
    Layer(u8),
}

/// A glyph with its tint.
#[derive(Copy, Clone, Debug, PartialEq, Eq, Structural)]
pub struct Piece {
    pub glyph: Glyph,
    pub tint: Tint,
}

/// The place of a layer's tint in the palette, if the palette reaches that
/// far.
pub open spec fn slot_of(layer: u8) -> Option<usize> {
    if layer < PALETTE_SIZE {
        Some(layer as usize)
    } else {
        None
    }
}

/// The place of a layer's tint in the palette, if the palette reaches that
/// far.
pub fn palette_slot(layer: u8) -> (r: Option<usize>)
    ensures
        r == slot_of(layer),
{
    if layer < PALETTE_SIZE {
        Some(layer as usize)
    } else {
        None
    }
}

/// What stands for a connection where only its being there is shown: a dim
/// hint for a shortcut, a plain connector for an open or locked connection, a
/// blank for none.
pub open spec fn connector_of(found: Option<Connection>, vertical: bool) -> Piece {
    match found {
        Some(c) => if c.state == ConnectState::Shortcut {
            Piece {
                glyph: if vertical {
                    Glyph::HintV
                } else {
                    Glyph::HintH
                },
                tint: Tint::Grey,
            }
        } else {
            Piece {
                glyph: if vertical {
                    Glyph::ConnV
                } else {
                    Glyph::ConnH
                },
                tint: Tint::Plain,
            }
        },
        None => Piece { glyph: Glyph::Space, tint: Tint::Plain },
    }
}

/// What stands for a connection where its state is shown: as before, but a
/// lock for a locked connection.
pub open spec fn lock_of(found: Option<Connection>, vertical: bool) -> Piece {
    match found {
        Some(c) => if c.state == ConnectState::Locked {
            Piece { glyph: Glyph::Lock, tint: Tint::Plain }
        } else {
            connector_of(found, vertical)
        },
        None => Piece { glyph: Glyph::Space, tint: Tint::Plain },
    }
}

/// The upper or lower edge of the room, in the tint of its layer, or a gap
/// where no room is.
pub open spec fn edge_of(room: Option<Node>, upper: bool) -> Piece {
    match room {
        Some(node) => Piece {
            glyph: if upper {
                Glyph::BoxTop
            } else {
                Glyph::BoxBottom
            },
            tint: Tint::Layer(node.layer),
        },
        None => Piece { glyph: Glyph::Gap, tint: Tint::Plain },
    }
}

/// The side of the room, in the tint of its layer, or a blank where no room
/// is.
pub open spec fn side_of(room: Option<Node>) -> Piece {
    match room {
        Some(node) => Piece { glyph: Glyph::BoxSide, tint: Tint::Layer(node.layer) },
        None => Piece { glyph: Glyph::Space, tint: Tint::Plain },
    }
}

/// The middle of the room: its key, in the tint of the layer that the key
/// opens, or a blank.
pub open spec fn center_of(room: Option<Node>) -> Piece {
    match room {
        Some(node) => match node.key {
            Some(layer) => Piece { glyph: Glyph::Key, tint: Tint::Layer(layer) },
            None => Piece { glyph: Glyph::Space, tint: Tint::Plain },
        },
        None => Piece { glyph: Glyph::Space, tint: Tint::Plain },
    }
}

impl NodeMap {
    /// What is drawn for the connection that leads from `pos` along the
    /// `d`-th unit offset: with `lock`, where the state is shown; without,
    /// where only its being there is shown.
    pub fn connection_piece(&self, pos: Pos, d: usize, lock: bool) -> (r: Piece)
        requires
            d < 4,
            isize::MIN < pos.0 < isize::MAX,
            isize::MIN < pos.1 < isize::MAX,
        ensures
            r == connection_of(self@, pos, d as int, lock),
    {
        let other = pos + direction(d);
        let vertical = d < 2;
        match self.get_connection(Line(pos, other)) {
            Some(conn) => match conn.state {
                ConnectState::Shortcut => Piece {
                    glyph: if vertical {
                        Glyph::HintV
                    } else {
                        Glyph::HintH
                    },
                    tint: Tint::Grey,
                },
                ConnectState::Locked => if lock {
                    Piece { glyph: Glyph::Lock, tint: Tint::Plain }
                } else {
                    Piece {
                        glyph: if vertical {
                            Glyph::ConnV
                        } else {
                            Glyph::ConnH
                        },
                        tint: Tint::Plain,
                    }
                },
                ConnectState::Open => Piece {
                    glyph: if vertical {
                        Glyph::ConnV
                    } else {
                        Glyph::ConnH
                    },
                    tint: Tint::Plain,
                },
            },
            None => Piece { glyph: Glyph::Space, tint: Tint::Plain },
        }
    }

    /// What is drawn for the upper or the lower edge of the cell at `pos`.
    pub fn edge_piece(&self, pos: Pos, upper: bool) -> (r: Piece)
        requires
            self.wf(),
        ensures
            r == edge_of(self@.room_at(pos), upper),
    {
        match self.get_node(pos) {
            Some(node) => Piece {
                glyph: if upper {
                    Glyph::BoxTop
                } else {
                    Glyph::BoxBottom
                },
                tint: Tint::Layer(node.layer),
            },
            None => Piece { glyph: Glyph::Gap, tint: Tint::Plain },
        }
    }

    /// What is drawn between the edges of the cell at `pos`: a side, the
    /// middle, and the other side, which is like the first.
    pub fn middle_pieces(&self, pos: Pos) -> (r: (Piece, Piece, Piece))
        requires
            self.wf(),
        ensures
            r.0 == side_of(self@.room_at(pos)),
            r.1 == center_of(self@.room_at(pos)),
            r.2 == side_of(self@.room_at(pos)),
    {
        match self.get_node(pos) {
            Some(node) => {
                let side = Piece { glyph: Glyph::BoxSide, tint: Tint::Layer(node.layer) };
                let center = match node.key {
                    Some(layer) => Piece { glyph: Glyph::Key, tint: Tint::Layer(layer) },
                    None => Piece { glyph: Glyph::Space, tint: Tint::Plain },
                };
                (side, center, side)
            },
            None => {
                let blank = Piece { glyph: Glyph::Space, tint: Tint::Plain };
                (blank, blank, blank)
            },
        }
    }
}

/// The lines that a row of cells is drawn in.
#[derive(Copy, Clone, Debug, PartialEq, Eq, Structural)]
pub enum LineKind {
    /// The connections to the row above, as plain connectors.
    Above,
    /// The upper edges of the rooms.
    Top,
    /// The sides and middles of the rooms, and the connections to the left
    /// and to the right.
    Middle,
    /// The lower edges of the rooms.
    Bottom,
    /// The connections to the row below, as plain connectors.
    Below,
    /// The connections to the row below, with their locks.
    BelowLock,
}

/// The lines of one row of cells, from the top down: the connections to the
/// row above, but for the first row; the rooms; and the connections to the
/// row below, twice, but for the last row.
pub open spec fn row_plan(row: int, height: int) -> Seq<LineKind> {
    (if row > 0 {
        seq![LineKind::Above]
    } else {
        Seq::<LineKind>::empty()
    }) + seq![LineKind::Top, LineKind::Middle, LineKind::Bottom] + (if row < height - 1 {
        seq![LineKind::Below, LineKind::BelowLock]
    } else {
        Seq::<LineKind>::empty()
    })
}

/// The plain blank.
pub open spec fn blank() -> Piece {
    Piece { glyph: Glyph::Space, tint: Tint::Plain }
}

/// What a connection of `m` that leads from `pos` along the `d`-th unit
/// offset is drawn as.
pub open spec fn connection_of(m: MapView, pos: Pos, d: int, lock: bool) -> Piece {
    if lock {
        lock_of(m.connection_at(Line(pos, step(pos, d))), d < 2)
    } else {
        connector_of(m.connection_at(Line(pos, step(pos, d))), d < 2)
    }
}

/// The six columns of the cell at `pos` in a line of the given kind. A
/// connection to another row stands in the third column; the room takes the
/// second to the fourth, between its connections to the left and to the
/// right, and the connection to the right is drawn once more with its lock.
pub open spec fn cell_of(m: MapView, kind: LineKind, pos: Pos) -> Seq<Piece> {
    match kind {
        LineKind::Above => seq![blank(), blank(), connection_of(m, pos, 0, false), blank(), blank(), blank()],
        LineKind::Below => seq![blank(), blank(), connection_of(m, pos, 1, false), blank(), blank(), blank()],
        LineKind::BelowLock => seq![blank(), blank(), connection_of(m, pos, 1, true), blank(), blank(), blank()],
        LineKind::Top => seq![blank(), edge_of(m.room_at(pos), true), blank(), blank()],
        LineKind::Bottom => seq![blank(), edge_of(m.room_at(pos), false), blank(), blank()],
        LineKind::Middle => seq![
            connection_of(m, pos, 2, false),
            side_of(m.room_at(pos)),
            center_of(m.room_at(pos)),
            side_of(m.room_at(pos)),
            connection_of(m, pos, 3, false),
            connection_of(m, pos, 3, true),
        ],
    }
}

/// The lines of the row `row` of a grid of `height` rows, from the top down.
pub fn row_lines(row: isize, height: isize) -> (r: Vec<LineKind>)
    ensures
        r@ == row_plan(row as int, height as int),
{
    let mut lines: Vec<LineKind> = Vec::new();
    if row > 0 {
        lines.push(LineKind::Above);
    }
    lines.push(LineKind::Top);
    lines.push(LineKind::Middle);
    lines.push(LineKind::Bottom);
    if height > isize::MIN && row < height - 1 {
        lines.push(LineKind::Below);
        lines.push(LineKind::BelowLock);
    }
    assert(lines@ =~= row_plan(row as int, height as int));
    lines
}

impl NodeMap {
    /// What is drawn for the cell at `pos` in a line of the given kind, from
    /// left to right.
    pub fn cell_pieces(&self, kind: LineKind, pos: Pos) -> (r: Vec<Piece>)
        requires
            self.wf(),
            isize::MIN < pos.0 < isize::MAX,
            isize::MIN < pos.1 < isize::MAX,
        ensures
            r@ == cell_of(self@, kind, pos),
    {
        let space = Piece { glyph: Glyph::Space, tint: Tint::Plain };
        let mut cell: Vec<Piece> = Vec::new();
        match kind {
            LineKind::Above | LineKind::Below | LineKind::BelowLock => {
                let piece = match kind {
                    LineKind::Above => self.connection_piece(pos, 0, false),
                    LineKind::Below => self.connection_piece(pos, 1, false),
                    _ => self.connection_piece(pos, 1, true),
                };
                cell.push(space);
                cell.push(space);
                cell.push(piece);
                cell.push(space);
                cell.push(space);
                cell.push(space);
            },
            LineKind::Top | LineKind::Bottom => {
                let upper = match kind {
                    LineKind::Top => true,
                    _ => false,
                };
                cell.push(space);
                cell.push(self.edge_piece(pos, upper));
                cell.push(space);
                cell.push(space);
            },
            LineKind::Middle => {
                let (side, center, other_side) = self.middle_pieces(pos);
                cell.push(self.connection_piece(pos, 2, false));
                cell.push(side);
                cell.push(center);
                cell.push(other_side);
                cell.push(self.connection_piece(pos, 3, false));
                cell.push(self.connection_piece(pos, 3, true));
            },
        }
        assert(cell@ =~= cell_of(self@, kind, pos));
        cell
    }
}

} // verus!
