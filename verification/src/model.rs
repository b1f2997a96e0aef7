use vstd::prelude::*;

use crate::cell::Cell;
use crate::cell::CellState;

verus! {

/// Flat index of position (x, y) in a row-major grid of width `w`.
pub open spec fn flat(w: int, x: int, y: int) -> int {
    y * w + x
}

/// (x, y) lies on a grid of width `w` and height `h`.
pub open spec fn in_grid(w: int, h: int, x: int, y: int) -> bool {
    0 <= x < w && 0 <= y < h
}

/// (a, b) is (x, y) itself or one of its up-to-8 neighbors
/// (Chebyshev distance at most 1).
pub open spec fn near(x: int, y: int, a: int, b: int) -> bool {
    -1 <= a - x <= 1 && -1 <= b - y <= 1
}

/// (a, b) is one of the up-to-8 neighbors of (x, y).
pub open spec fn is_neighbor(x: int, y: int, a: int, b: int) -> bool {
    near(x, y, a, b) && !(a == x && b == y)
}

/// The cell of grid `g` (width `w`) at position (x, y).
pub open spec fn cell(g: Seq<Cell>, w: int, x: int, y: int) -> Cell {
    g[flat(w, x, y)]
}

/// 1 if (x, y) is on the grid and holds a mine, else 0.
pub open spec fn mine_at(g: Seq<Cell>, w: int, h: int, x: int, y: int) -> int {
    if in_grid(w, h, x, y) && cell(g, w, x, y).is_mine {
        1
    } else {
        0
    }
}

/// Exact number of mine-bearing neighbors of (x, y), 8-connectivity.
pub open spec fn adjacent_mine_count(g: Seq<Cell>, w: int, h: int, x: int, y: int) -> int {
    mine_at(g, w, h, x - 1, y - 1) + mine_at(g, w, h, x, y - 1) + mine_at(g, w, h, x + 1, y - 1)
        + mine_at(g, w, h, x - 1, y) + mine_at(g, w, h, x + 1, y) + mine_at(g, w, h, x - 1, y + 1)
        + mine_at(g, w, h, x, y + 1) + mine_at(g, w, h, x + 1, y + 1)
}

/// 1 if (x, y) is on the grid and flagged, else 0.
pub open spec fn flagged_at(g: Seq<Cell>, w: int, h: int, x: int, y: int) -> int {
    if in_grid(w, h, x, y) && cell(g, w, x, y).state == CellState::Flagged {
        1
    } else {
        0
    }
}

/// Number of flagged neighbors of (x, y).
pub open spec fn flagged_neighbor_count(g: Seq<Cell>, w: int, h: int, x: int, y: int) -> int {
    flagged_at(g, w, h, x - 1, y - 1) + flagged_at(g, w, h, x, y - 1)
        + flagged_at(g, w, h, x + 1, y - 1) + flagged_at(g, w, h, x - 1, y)
        + flagged_at(g, w, h, x + 1, y) + flagged_at(g, w, h, x - 1, y + 1)
        + flagged_at(g, w, h, x, y + 1) + flagged_at(g, w, h, x + 1, y + 1)
}

/// 1 if (x, y) is on the grid and not revealed, else 0.
pub open spec fn unrevealed_at(g: Seq<Cell>, w: int, h: int, x: int, y: int) -> int {
    if in_grid(w, h, x, y) && cell(g, w, x, y).state != CellState::Revealed {
        1
    } else {
        0
    }
}

/// Number of neighbors of (x, y) that are not revealed (hidden or flagged).
pub open spec fn unrevealed_neighbor_count(g: Seq<Cell>, w: int, h: int, x: int, y: int) -> int {
    unrevealed_at(g, w, h, x - 1, y - 1) + unrevealed_at(g, w, h, x, y - 1)
        + unrevealed_at(g, w, h, x + 1, y - 1) + unrevealed_at(g, w, h, x - 1, y)
        + unrevealed_at(g, w, h, x + 1, y) + unrevealed_at(g, w, h, x - 1, y + 1)
        + unrevealed_at(g, w, h, x, y + 1) + unrevealed_at(g, w, h, x + 1, y + 1)
}

/// Number of mine cells of `g`.
pub open spec fn count_mines(g: Seq<Cell>) -> int
    decreases g.len(),
{
    if g.len() == 0 {
        0
    } else {
        count_mines(g.drop_last()) + if g.last().is_mine {
            1int
        } else {
            0int
        }
    }
}

/// Number of hidden cells of `g`.
pub open spec fn count_hidden(g: Seq<Cell>) -> int
    decreases g.len(),
{
    if g.len() == 0 {
        0
    } else {
        count_hidden(g.drop_last()) + if g.last().state == CellState::Hidden {
            1int
        } else {
            0int
        }
    }
}

pub proof fn lemma_count_hidden_bounds(g: Seq<Cell>)
    ensures
        0 <= count_hidden(g) <= g.len(),
    decreases g.len(),
{
    if g.len() > 0 {
        lemma_count_hidden_bounds(g.drop_last());
    }
}

pub proof fn lemma_count_mines_none(g: Seq<Cell>)
    requires
        forall|i: int| 0 <= i < g.len() ==> !(#[trigger] g[i]).is_mine,
    ensures
        count_mines(g) == 0,
    decreases g.len(),
{
    if g.len() > 0 {
        lemma_count_mines_none(g.drop_last());
    }
}

/// Replacing one cell changes the mine count exactly by the mine status of
/// the old and the new cell.
pub proof fn lemma_count_mines_update(g: Seq<Cell>, i: int, c: Cell)
    requires
        0 <= i < g.len(),
    ensures
        count_mines(g.update(i, c)) == count_mines(g) - (if g[i].is_mine {
            1int
        } else {
            0int
        }) + (if c.is_mine {
            1int
        } else {
            0int
        }),
    decreases g.len(),
{
    let gu = g.update(i, c);
    if i == g.len() - 1 {
        assert(gu.drop_last() =~= g.drop_last());
    } else {
        assert(gu.drop_last() =~= g.drop_last().update(i, c));
        lemma_count_mines_update(g.drop_last(), i, c);
    }
}

pub proof fn lemma_count_hidden_update(g: Seq<Cell>, i: int, c: Cell)
    requires
        0 <= i < g.len(),
    ensures
        count_hidden(g.update(i, c)) == count_hidden(g) - (if g[i].state == CellState::Hidden {
            1int
        } else {
            0int
        }) + (if c.state == CellState::Hidden {
            1int
        } else {
            0int
        }),
    decreases g.len(),
{
    let gu = g.update(i, c);
    if i == g.len() - 1 {
        assert(gu.drop_last() =~= g.drop_last());
    } else {
        assert(gu.drop_last() =~= g.drop_last().update(i, c));
        lemma_count_hidden_update(g.drop_last(), i, c);
    }
}

/// The mine count only reads mine status: grids that agree on it per cell
/// have the same count.
pub proof fn lemma_count_mines_congruent(g1: Seq<Cell>, g2: Seq<Cell>)
    requires
        g1.len() == g2.len(),
        forall|i: int| 0 <= i < g1.len() ==> (#[trigger] g1[i]).is_mine == (#[trigger] g2[i]).is_mine,
    ensures
        count_mines(g1) == count_mines(g2),
    decreases g1.len(),
{
    if g1.len() > 0 {
        lemma_count_mines_congruent(g1.drop_last(), g2.drop_last());
    }
}

pub proof fn lemma_flat_bounds(w: int, h: int, x: int, y: int)
    by (nonlinear_arith)
    requires
        in_grid(w, h, x, y),
    ensures
        0 <= flat(w, x, y) < w * h,
{
}

pub proof fn lemma_flat_injective(w: int, h: int, x1: int, y1: int, x2: int, y2: int)
    by (nonlinear_arith)
    requires
        in_grid(w, h, x1, y1),
        in_grid(w, h, x2, y2),
        flat(w, x1, y1) == flat(w, x2, y2),
    ensures
        x1 == x2 && y1 == y2,
{
}

/// The adjacency count only reads mine status: grids that agree on it per
/// cell count the same neighborhood.
pub proof fn lemma_adjacent_count_congruent(
    g1: Seq<Cell>,
    g2: Seq<Cell>,
    w: int,
    h: int,
    x: int,
    y: int,
)
    requires
        g1.len() == g2.len(),
        g1.len() == w * h,
        forall|i: int| 0 <= i < g1.len() ==> (#[trigger] g1[i]).is_mine == (#[trigger] g2[i]).is_mine,
    ensures
        adjacent_mine_count(g1, w, h, x, y) == adjacent_mine_count(g2, w, h, x, y),
{
    assert forall|a: int, b: int| true implies mine_at(g1, w, h, a, b) == mine_at(
        g2,
        w,
        h,
        a,
        b,
    ) by {
        if in_grid(w, h, a, b) {
            lemma_flat_bounds(w, h, a, b);
        }
    }
}

/// Every listed position lies on the grid.
pub open spec fn all_on_grid(cs: Seq<(usize, usize)>, w: int, h: int) -> bool {
    forall|k: int| 0 <= k < cs.len() ==> in_grid(w, h, (#[trigger] cs[k]).0 as int, cs[k].1 as int)
}

/// No two listed positions denote the same grid cell.
pub open spec fn distinct_cells(cs: Seq<(usize, usize)>, w: int) -> bool {
    forall|k1: int, k2: int|
        0 <= k1 < k2 < cs.len() ==> flat(w, (#[trigger] cs[k1]).0 as int, cs[k1].1 as int) != flat(
            w,
            (#[trigger] cs[k2]).0 as int,
            cs[k2].1 as int,
        )
}

/// Flat index `i` is one of the first `n` listed positions.
pub open spec fn placed_in(cs: Seq<(usize, usize)>, w: int, n: int, i: int) -> bool {
    exists|k: int| 0 <= k < n && flat(w, (#[trigger] cs[k]).0 as int, cs[k].1 as int) == i
}

/// Every mine-free cell is revealed.
pub open spec fn all_clear(g: Seq<Cell>) -> bool {
    forall|i: int| 0 <= i < g.len() && !(#[trigger] g[i]).is_mine ==> g[i].state
        == CellState::Revealed
}

/// Every mine is flagged and nothing else is.
pub open spec fn all_mines_flagged(g: Seq<Cell>) -> bool {
    forall|i: int|
        0 <= i < g.len() ==> ((#[trigger] g[i]).is_mine <==> g[i].state == CellState::Flagged)
}

/// Either sufficient winning condition.
pub open spec fn win_condition(g: Seq<Cell>) -> bool {
    all_clear(g) || all_mines_flagged(g)
}

/// (x, y) is on the grid, mine-free, and has no adjacent mines.
pub open spec fn zero_cell(g: Seq<Cell>, w: int, h: int, x: int, y: int) -> bool {
    in_grid(w, h, x, y) && !cell(g, w, x, y).is_mine && adjacent_mine_count(g, w, h, x, y) == 0
}

/// No neighbor of (x, y) is still hidden and mine-free: the flood fill
/// around (x, y) has nothing left to do.
pub open spec fn no_hidden_safe_neighbor(g: Seq<Cell>, w: int, h: int, x: int, y: int) -> bool {
    forall|a: int, b: int|
        #[trigger] is_neighbor(x, y, a, b) && in_grid(w, h, a, b) && !cell(g, w, a, b).is_mine
            ==> cell(g, w, a, b).state != CellState::Hidden
}

/// A flood-fill path through grid `g`: consecutive positions are neighbors,
/// every position but the last is a zero cell, and every position but the
/// first is hidden and mine-free.
pub open spec fn flood_path(g: Seq<Cell>, w: int, h: int, p: Seq<(int, int)>) -> bool {
    &&& p.len() >= 1
    &&& forall|i: int| 0 <= i < p.len() ==> in_grid(w, h, (#[trigger] p[i]).0, p[i].1)
    &&& forall|i: int|
        0 <= i < p.len() - 1 ==> zero_cell(g, w, h, (#[trigger] p[i]).0, p[i].1)
    &&& forall|i: int|
        0 <= i < p.len() - 1 ==> is_neighbor((#[trigger] p[i]).0, p[i].1, p[i + 1].0, p[i + 1].1)
    &&& forall|i: int|
        1 <= i < p.len() ==> cell(g, w, (#[trigger] p[i]).0, p[i].1).state == CellState::Hidden
            && !cell(g, w, p[i].0, p[i].1).is_mine
}

/// (x, y) can be reached from (sx, sy) by flood fill through grid `g`.
#[verifier::opaque]
pub open spec fn flood_reachable(
    g: Seq<Cell>,
    w: int,
    h: int,
    sx: int,
    sy: int,
    x: int,
    y: int,
) -> bool {
    exists|p: Seq<(int, int)>|
        #[trigger] flood_path(g, w, h, p) && p[0] == (sx, sy) && p[p.len() - 1] == (x, y)
}

/// (a, b) occurs in the worklist.
pub open spec fn contains_pos(st: Seq<(usize, usize)>, a: int, b: int) -> bool {
    exists|k: int| 0 <= k < st.len() && (#[trigger] st[k]).0 == a && st[k].1 == b
}

/// The grid a reveal worked on: the visibility states of `a` joined with
/// the mine layout and adjacency counts of `b`.
pub open spec fn base_grid(a: Seq<Cell>, b: Seq<Cell>) -> Seq<Cell> {
    Seq::new(
        a.len(),
        |i: int|
            Cell { is_mine: b[i].is_mine, state: a[i].state, adjacent_mines: b[i].adjacent_mines },
    )
}

/// Flood reachability carries over to a grid with the same layout in which
/// at least as many cells are still hidden.
pub proof fn lemma_flood_reachable_widen(
    g1: Seq<Cell>,
    g2: Seq<Cell>,
    w: int,
    h: int,
    sx: int,
    sy: int,
    a: int,
    b: int,
)
    requires
        g1.len() == g2.len(),
        g1.len() == w * h,
        forall|i: int|
            0 <= i < g1.len() ==> (#[trigger] g1[i]).is_mine == (#[trigger] g2[i]).is_mine
                && g1[i].adjacent_mines == g2[i].adjacent_mines,
        forall|i: int|
            0 <= i < g1.len() && (#[trigger] g1[i]).state == CellState::Hidden ==> (
            #[trigger] g2[i]).state == CellState::Hidden,
        flood_reachable(g1, w, h, sx, sy, a, b),
    ensures
        flood_reachable(g2, w, h, sx, sy, a, b),
{
    reveal(flood_reachable);
    let p = choose|p: Seq<(int, int)>|
        #[trigger] flood_path(g1, w, h, p) && p[0] == (sx, sy) && p[p.len() - 1] == (a, b);
    assert forall|i: int| 0 <= i < p.len() - 1 implies zero_cell(
        g2,
        w,
        h,
        (#[trigger] p[i]).0,
        p[i].1,
    ) by {
        lemma_flat_bounds(w, h, p[i].0, p[i].1);
        lemma_adjacent_count_congruent(g1, g2, w, h, p[i].0, p[i].1);
    }
    assert forall|i: int| 1 <= i < p.len() implies cell(g2, w, (#[trigger] p[i]).0, p[i].1).state
        == CellState::Hidden && !cell(g2, w, p[i].0, p[i].1).is_mine by {
        lemma_flat_bounds(w, h, p[i].0, p[i].1);
    }
    assert(flood_path(g2, w, h, p));
}

pub proof fn lemma_flood_reachable_self(g: Seq<Cell>, w: int, h: int, sx: int, sy: int)
    requires
        in_grid(w, h, sx, sy),
    ensures
        flood_reachable(g, w, h, sx, sy, sx, sy),
{
    reveal(flood_reachable);
    let p = seq![(sx, sy)];
    assert(flood_path(g, w, h, p));
}

/// Extending a flood path by one more hidden, mine-free neighbor of a zero
/// cell stays a flood path.
pub proof fn lemma_flood_reachable_step(
    g: Seq<Cell>,
    w: int,
    h: int,
    sx: int,
    sy: int,
    x: int,
    y: int,
    a: int,
    b: int,
)
    requires
        flood_reachable(g, w, h, sx, sy, x, y),
        zero_cell(g, w, h, x, y),
        is_neighbor(x, y, a, b),
        in_grid(w, h, a, b),
        cell(g, w, a, b).state == CellState::Hidden,
        !cell(g, w, a, b).is_mine,
    ensures
        flood_reachable(g, w, h, sx, sy, a, b),
{
    reveal(flood_reachable);
    let p = choose|p: Seq<(int, int)>|
        #[trigger] flood_path(g, w, h, p) && p[0] == (sx, sy) && p[p.len() - 1] == (x, y);
    let q = p.push((a, b));
    assert forall|i: int| 0 <= i < q.len() - 1 implies zero_cell(
        g,
        w,
        h,
        (#[trigger] q[i]).0,
        q[i].1,
    ) by {
        assert(q[i] == p[i]);
        if i == p.len() - 1 {
            assert(q[i] == (x, y));
        }
    }
    assert forall|i: int| 0 <= i < q.len() - 1 implies is_neighbor(
        (#[trigger] q[i]).0,
        q[i].1,
        q[i + 1].0,
        q[i + 1].1,
    ) by {
        assert(q[i] == p[i]);
        if i < p.len() - 1 {
            assert(q[i + 1] == p[i + 1]);
        } else {
            assert(q[i] == (x, y) && q[i + 1] == (a, b));
        }
    }
    assert(flood_path(g, w, h, q));
    assert(q[0] == (sx, sy) && q[q.len() - 1] == (a, b));
}

} // verus!
