//! The rules of play, stated over a mathematical model of the board.
//!
//! A position is a finite map from points to the colour of the stone that
//! stands there. Everything the engine decides (which stones a move captures,
//! whether it is suicide, whether it retakes a ko) is defined here without
//! reference to how a board is stored.

use vstd::prelude::*;
use crate::color::StoneColor;
use crate::error::SgfError;

verus! {

/// A point of the board: column, then row, both counted from zero.
pub type Point = (int, int);

/// The stones on a board: each occupied point with the colour on it.
pub type Stones = Map<(int, int), StoneColor>;

/// The model of a board: its side length, its stones, and the point at which
/// an immediate single-stone recapture is barred, if there is one.
pub struct Position {
    pub size: int,
    pub stones: Stones,
    pub ko: Option<Point>,
}

/// The point lies on a board of the given side length.
pub open spec fn on_board(size: int, p: Point) -> bool {
    0 <= p.0 < size && 0 <= p.1 < size
}

/// The two points are orthogonal neighbours.
pub open spec fn adjacent(p: Point, q: Point) -> bool {
    ||| (p.0 == q.0 && (p.1 == q.1 + 1 || p.1 + 1 == q.1))
    ||| (p.1 == q.1 && (p.0 == q.0 + 1 || p.0 + 1 == q.0))
}

/// What stands on a point: a colour, or nothing.
pub open spec fn stone_at(stones: Stones, p: Point) -> Option<StoneColor> {
    if stones.dom().contains(p) {
        Some(stones[p])
    } else {
        None
    }
}

/// The board with no stone on it.
pub open spec fn empty_position(size: int) -> Position {
    Position { size, stones: Map::empty(), ko: None }
}

/// A walk over points of the board, each next to the one before it, all of
/// which hold what the first one holds.
pub open spec fn is_chain(stones: Stones, size: int, path: Seq<Point>) -> bool {
    &&& path.len() > 0
    &&& forall|i: int|
        0 <= i < path.len() ==> on_board(size, #[trigger] path[i]) && stone_at(stones, path[i])
            == stone_at(stones, path[0])
    &&& forall|i: int| 0 < i < path.len() ==> adjacent(path[i - 1], #[trigger] path[i])
}

/// `q` can be reached from `p` along a chain.
pub open spec fn connected(stones: Stones, size: int, p: Point, q: Point) -> bool {
    exists|path: Seq<Point>| #[trigger]
        is_chain(stones, size, path) && path[0] == p && path.last() == q
}

/// The group of `p`: every point connected to it.
pub open spec fn group(stones: Stones, size: int, p: Point) -> Set<Point> {
    Set::new(|q: Point| connected(stones, size, p, q))
}

/// `l` is a liberty of the group of the stone on `p`: an empty point of the
/// board next to one of the group's points. A point without a stone has no
/// liberties.
pub open spec fn is_liberty(stones: Stones, size: int, p: Point, l: Point) -> bool {
    &&& on_board(size, l)
    &&& stone_at(stones, l) is None
    &&& stone_at(stones, p) is Some
    &&& exists|r: Point| #[trigger] connected(stones, size, p, r) && adjacent(r, l)
}

/// The liberties of the group of `p`.
pub open spec fn liberties(stones: Stones, size: int, p: Point) -> Set<Point> {
    Set::new(|l: Point| is_liberty(stones, size, p, l))
}

/// The group of `p` has at least one liberty.
pub open spec fn has_liberty(stones: Stones, size: int, p: Point) -> bool {
    exists|l: Point| #[trigger] is_liberty(stones, size, p, l)
}

/// `q` belongs to a group of the opponent that touches `at` and has no
/// liberty: a stone that the move at `at` takes off the board. `stones` is
/// the board with the new stone already on it.
pub open spec fn is_captured(stones: Stones, size: int, at: Point, color: StoneColor, q: Point)
    -> bool {
    exists|n: Point|
        {
            &&& adjacent(at, n)
            &&& on_board(size, n)
            &&& stone_at(stones, n) == Some(color.spec_opponent())
            &&& #[trigger] connected(stones, size, n, q)
            &&& !has_liberty(stones, size, n)
        }
}

/// All the stones that a move of `color` at `at` captures.
pub open spec fn captured(stones: Stones, size: int, at: Point, color: StoneColor) -> Set<Point> {
    Set::new(|q: Point| is_captured(stones, size, at, color, q))
}

/// The outcome of a move: the next position, or the rule that forbids it.
///
/// A move off the board or onto a stone is refused. Otherwise the stone is
/// placed and every opposing group that it leaves without a liberty is
/// removed. A move that captures nothing and leaves its own group without a
/// liberty is suicide. A move that captures exactly one stone at the barred
/// point is a ko violation. The next position bars the point of a single
/// captured stone and no point otherwise.
pub open spec fn play(pos: Position, at: Point, color: StoneColor) -> Result<Position, SgfError> {
    if !on_board(pos.size, at) {
        Err(SgfError::OutOfBounds)
    } else if pos.stones.dom().contains(at) {
        Err(SgfError::Occupied)
    } else {
        let placed = pos.stones.insert(at, color);
        let dead = captured(placed, pos.size, at, color);
        if dead =~= Set::empty() && !has_liberty(placed, pos.size, at) {
            Err(SgfError::Suicide)
        } else if dead.len() == 1 && pos.ko == Some(at) {
            Err(SgfError::KoViolation)
        } else {
            Ok(
                Position {
                    size: pos.size,
                    stones: placed.remove_keys(dead),
                    ko: if dead.len() == 1 {
                        Some(dead.choose())
                    } else {
                        None
                    },
                },
            )
        }
    }
}

} // verus!
