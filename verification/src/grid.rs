//! The grid as a set of cells: how many there are, and why a grid that is not
//! full has a free cell next to a room.

use crate::node_map::MapView;
use crate::pos::Pos;
use crate::snapshot::{is_available, listed, stuck};
use vstd::prelude::*;
use vstd::set_lib::{lemma_len_subset, lemma_set_disjoint_lens, lemma_subset_equality};

verus! {

/// The cells of one row of a grid.
pub open spec fn row_cells(width: int, row: int) -> Set<Pos> {
    Set::new(|p: Pos| p.0 == row && 0 <= p.1 < width)
}

/// The cells of a grid.
pub open spec fn cells(width: int, height: int) -> Set<Pos> {
    Set::new(|p: Pos| 0 <= p.0 < height && 0 <= p.1 < width)
}

/// A row has as many cells as the grid has columns.
pub proof fn lemma_row_len(width: int, row: int)
    requires
        0 <= width <= isize::MAX,
        isize::MIN <= row <= isize::MAX,
    ensures
        row_cells(width, row).finite(),
        row_cells(width, row).len() == width,
    decreases width,
{
    if width == 0 {
        assert(row_cells(width, row) =~= Set::<Pos>::empty());
    } else {
        lemma_row_len(width - 1, row);
        let last = Pos(row as isize, (width - 1) as isize);
        assert(row_cells(width, row) =~= row_cells(width - 1, row).insert(last));
    }
}

/// A grid has as many cells as its extents multiply to.
pub proof fn lemma_cells_len(width: int, height: int)
    requires
        0 <= width <= isize::MAX,
        0 <= height <= isize::MAX,
    ensures
        cells(width, height).finite(),
        cells(width, height).len() == width * height,
    decreases height,
{
    if height == 0 {
        assert(cells(width, height) =~= Set::<Pos>::empty());
    } else {
        let above = cells(width, height - 1);
        let row = row_cells(width, height - 1);
        lemma_cells_len(width, height - 1);
        lemma_row_len(width, height - 1);
        assert(cells(width, height) =~= above + row);
        lemma_set_disjoint_lens(above, row);
        assert(width * (height - 1) + width == width * height) by (nonlinear_arith);
    }
}

/// The rooms fit on the grid: there are no more rooms than cells; with fewer
/// rooms than cells some cell is free; with as many rooms as cells none is.
pub proof fn lemma_rooms_fit(m: MapView, order: Seq<Pos>)
    requires
        listed(m, order),
    ensures
        order.len() <= m.width * m.height,
        order.len() < m.width * m.height ==> exists|q: Pos| m.in_bounds(q) && !#[trigger] order.contains(q),
        order.len() == m.width * m.height ==> forall|q: Pos| m.in_bounds(q) ==> #[trigger] order.contains(q),
{
    let all = cells(m.width, m.height);
    let taken = order.to_set();
    lemma_cells_len(m.width, m.height);
    order.unique_seq_to_set();
    assert(taken.subset_of(all));
    lemma_len_subset(taken, all);
    if order.len() < m.width * m.height {
        if forall|q: Pos| m.in_bounds(q) ==> #[trigger] order.contains(q) {
            assert(all =~= taken);
        }
    }
    if order.len() == m.width * m.height {
        lemma_subset_equality(taken, all);
        assert forall|q: Pos| m.in_bounds(q) implies #[trigger] order.contains(q) by {
            assert(all.contains(q));
        }
    }
}

/// How many steps along rows and columns lie between two cells.
pub open spec fn distance(a: Pos, b: Pos) -> int {
    (if a.0 >= b.0 {
        a.0 - b.0
    } else {
        b.0 - a.0
    }) + (if a.1 >= b.1 {
        a.1 - b.1
    } else {
        b.1 - a.1
    })
}

/// Where some cell is free, a free cell lies next to a room: on the way from
/// the free cell to the first room, the last free cell does.
pub proof fn lemma_gap_near_room(m: MapView, order: Seq<Pos>, free: Pos)
    requires
        listed(m, order),
        order.len() >= 1,
        m.in_bounds(free),
        !order.contains(free),
    ensures
        !stuck(m, order, 0, order.len() as int),
    decreases distance(free, order[0]),
{
    let first = order[0];
    let closer = if free.0 > first.0 {
        Pos((free.0 - 1) as isize, free.1)
    } else if free.0 < first.0 {
        Pos((free.0 + 1) as isize, free.1)
    } else if free.1 > first.1 {
        Pos(free.0, (free.1 - 1) as isize)
    } else {
        Pos(free.0, (free.1 + 1) as isize)
    };
    if order.contains(closer) {
        assert(is_available(m, order, 0, order.len() as int, free));
    } else {
        lemma_gap_near_room(m, order, closer);
    }
}

/// The rooms fill the grid exactly where no free cell lies next to any room.
pub proof fn lemma_full_iff_stuck(m: MapView, order: Seq<Pos>)
    requires
        listed(m, order),
        order.len() >= 1,
    ensures
        stuck(m, order, 0, order.len() as int) <==> order.len() == m.width * m.height,
{
    lemma_rooms_fit(m, order);
    if order.len() < m.width * m.height {
        let free = choose|q: Pos| m.in_bounds(q) && !#[trigger] order.contains(q);
        lemma_gap_near_room(m, order, free);
    }
}

} // verus!
