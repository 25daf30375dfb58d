//! The flat storage of a board and the words in which the engine speaks of
//! coordinates held as machine integers.

use vstd::prelude::*;
use crate::color::StoneColor;
use crate::rules::{adjacent, on_board, stone_at, Point, Stones};

verus! {

/// The largest side length a board can have: the number of its points must
/// fit the index type.
pub const MAX_SIZE: u32 = 0xFFFF;

/// The place of a point in the flat storage, row after row.
pub open spec fn cell_index(size: int, p: Point) -> int {
    p.1 * size + p.0
}

/// The stones that a flat grid of the given side length holds.
pub open spec fn grid_stones(grid: Seq<Option<StoneColor>>, size: int) -> Stones {
    Map::new(
        |p: Point| on_board(size, p) && grid[cell_index(size, p)] is Some,
        |p: Point| grid[cell_index(size, p)]->0,
    )
}

/// A coordinate pair as a point.
pub open spec fn pt(c: (u32, u32)) -> Point {
    (c.0 as int, c.1 as int)
}

/// The point occurs in the list of coordinate pairs.
pub open spec fn in_seq(s: Seq<(u32, u32)>, p: Point) -> bool {
    exists|k: int| 0 <= k < s.len() && pt(#[trigger] s[k]) == p
}

/// The points that a list of coordinate pairs names.
pub open spec fn point_set(s: Seq<(u32, u32)>) -> Set<Point> {
    Set::new(|p: Point| in_seq(s, p))
}

/// The neighbours of a point on the board, in the order left, right, up,
/// down.
pub open spec fn neighbors_of(size: int, p: Point) -> Seq<Point> {
    let left: Seq<Point> = if p.0 > 0 {
        seq![(p.0 - 1, p.1)]
    } else {
        seq![]
    };
    let right: Seq<Point> = if p.0 < size - 1 {
        seq![(p.0 + 1, p.1)]
    } else {
        seq![]
    };
    let up: Seq<Point> = if p.1 > 0 {
        seq![(p.0, p.1 - 1)]
    } else {
        seq![]
    };
    let down: Seq<Point> = if p.1 < size - 1 {
        seq![(p.0, p.1 + 1)]
    } else {
        seq![]
    };
    left + right + up + down
}

/// The index of a point of the board lies within the grid.
pub proof fn lemma_cell_index_bounds(size: int, p: Point)
    requires
        on_board(size, p),
    ensures
        0 <= cell_index(size, p) < size * size,
{
    assert(p.1 * size <= (size - 1) * size) by (nonlinear_arith)
        requires
            0 <= p.1 <= size - 1,
            0 < size,
    ;
    assert((size - 1) * size == size * size - size) by (nonlinear_arith);
    assert(0 <= p.1 * size) by (nonlinear_arith)
        requires
            0 <= p.1,
            0 < size,
    ;
}

/// Different points of the board have different indices.
pub proof fn lemma_cell_index_injective(size: int, p: Point, q: Point)
    requires
        on_board(size, p),
        on_board(size, q),
        cell_index(size, p) == cell_index(size, q),
    ensures
        p == q,
{
    if p.1 < q.1 {
        assert(p.1 * size + size <= q.1 * size) by (nonlinear_arith)
            requires
                p.1 + 1 <= q.1,
                0 < size,
        ;
    } else if q.1 < p.1 {
        assert(q.1 * size + size <= p.1 * size) by (nonlinear_arith)
            requires
                q.1 + 1 <= p.1,
                0 < size,
        ;
    }
}

/// Writing one cell of the grid changes the stones at that point alone.
pub proof fn lemma_grid_update(
    grid: Seq<Option<StoneColor>>,
    size: int,
    p: Point,
    content: Option<StoneColor>,
)
    requires
        on_board(size, p),
        grid.len() == size * size,
    ensures
        content matches Some(color) ==> grid_stones(
            grid.update(cell_index(size, p), content),
            size,
        ) == grid_stones(grid, size).insert(p, color),
        content is None ==> grid_stones(grid.update(cell_index(size, p), content), size)
            == grid_stones(grid, size).remove(p),
{
    let after = grid.update(cell_index(size, p), content);
    lemma_cell_index_bounds(size, p);
    assert forall|q: Point| on_board(size, q) && q != p implies after[cell_index(size, q)]
        == grid[cell_index(size, q)] by {
        lemma_cell_index_bounds(size, q);
        if cell_index(size, q) == cell_index(size, p) {
            lemma_cell_index_injective(size, p, q);
        }
    }
}

/// The neighbours of a point of the board are exactly the points of the
/// board next to it.
pub proof fn lemma_neighbors_of(size: int, p: Point)
    requires
        on_board(size, p),
    ensures
        forall|q: Point| #[trigger]
            neighbors_of(size, p).contains(q) <==> on_board(size, q) && adjacent(p, q),
{
    let ns = neighbors_of(size, p);
    assert forall|q: Point| #[trigger] ns.contains(q) <==> on_board(size, q) && adjacent(
        p,
        q,
    ) by {
        if on_board(size, q) && adjacent(p, q) {
            let left: Seq<Point> = if p.0 > 0 {
                seq![(p.0 - 1, p.1)]
            } else {
                seq![]
            };
            let right: Seq<Point> = if p.0 < size - 1 {
                seq![(p.0 + 1, p.1)]
            } else {
                seq![]
            };
            let up: Seq<Point> = if p.1 > 0 {
                seq![(p.0, p.1 - 1)]
            } else {
                seq![]
            };
            if q == (p.0 - 1, p.1) {
                assert(ns[0] == q);
            } else if q == (p.0 + 1, p.1) {
                assert(ns[left.len() as int] == q);
            } else if q == (p.0, p.1 - 1) {
                assert(ns[(left.len() + right.len()) as int] == q);
            } else {
                assert(ns[(left.len() + right.len() + up.len()) as int] == q);
            }
        }
    }
}

/// A list without repeats names as many points as it has entries.
pub proof fn lemma_point_set_len(s: Seq<(u32, u32)>)
    requires
        s.no_duplicates(),
    ensures
        point_set(s).finite(),
        point_set(s).len() == s.len(),
    decreases s.len(),
{
    if s.len() == 0 {
        assert(point_set(s) =~= Set::empty());
    } else {
        let init = s.drop_last();
        let last = s.last();
        lemma_point_set_len(init);
        assert forall|p: Point| point_set(s).contains(p) <==> point_set(init).insert(
            pt(last),
        ).contains(p) by {
            if in_seq(s, p) {
                let k = choose|k: int| 0 <= k < s.len() && pt(#[trigger] s[k]) == p;
                if k < init.len() {
                    assert(pt(init[k]) == p);
                }
            }
        }
        assert(point_set(s) =~= point_set(init).insert(pt(last)));
    }
}

/// Returns the index of a point in the flat storage.
pub fn index_of(size: u32, x: u32, y: u32) -> (i: usize)
    requires
        size <= MAX_SIZE,
        x < size,
        y < size,
    ensures
        i == cell_index(size as int, (x as int, y as int)),
        i < size * size,
{
    proof {
        lemma_cell_index_bounds(size as int, (x as int, y as int));
        assert(size * size <= 0xFFFF * 0xFFFF) by (nonlinear_arith)
            requires
                0 <= size <= 0xFFFF,
        ;
    }
    (y * size + x) as usize
}

/// Returns what the grid holds at a point of the board.
pub fn read_cell(grid: &[Option<StoneColor>], size: u32, x: u32, y: u32) -> (content: Option<
    StoneColor,
>)
    requires
        size <= MAX_SIZE,
        x < size,
        y < size,
        grid@.len() == size * size,
    ensures
        content == stone_at(grid_stones(grid@, size as int), (x as int, y as int)),
{
    let i = index_of(size, x, y);
    grid[i]
}

/// Tells whether two cells hold the same thing.
pub fn same_content(a: Option<StoneColor>, b: Option<StoneColor>) -> (same: bool)
    ensures
        same == (a == b),
{
    match (a, b) {
        (None, None) => true,
        (Some(StoneColor::Black), Some(StoneColor::Black)) => true,
        (Some(StoneColor::White), Some(StoneColor::White)) => true,
        _ => false,
    }
}

} // verus!
