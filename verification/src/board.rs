//! The board: an immutable position and the move that leads to the next one.

use std::sync::Arc;
use vstd::prelude::*;
use crate::color::StoneColor;
use crate::connectivity::{
    is_whole_groups,
    lemma_connected_refl,
    lemma_connected_same,
    lemma_group_is_whole,
    lemma_group_shared,
    lemma_removal_keeps_others,
};
use crate::error::SgfError;
use crate::flood::{explore, neighbors_on};
use crate::grid::{
    grid_stones,
    in_seq,
    index_of,
    lemma_cell_index_bounds,
    lemma_grid_update,
    lemma_neighbors_of,
    lemma_point_set_len,
    neighbors_of,
    point_set,
    pt,
    read_cell,
    same_content,
    MAX_SIZE,
};
use crate::rules::{
    adjacent,
    captured,
    connected,
    empty_position,
    group,
    has_liberty,
    is_captured,
    is_liberty,
    liberties,
    on_board,
    play,
    stone_at,
    Point,
    Position,
    Stones,
};

verus! {

/// A position on a square board. A board never changes: a legal move gives
/// a new board and an illegal one gives an error.
#[derive(Debug)]
pub struct Board {
    size: u32,
    grid: Vec<Option<StoneColor>>,
    last_captured_pos: Option<(u32, u32)>,
}

/// The stones that a move takes by way of one neighbouring point: the group
/// of that point where it is the opponent's and has no liberty.
pub open spec fn taken_via(stones: Stones, size: int, color: StoneColor, n: Point) -> Set<Point> {
    if stone_at(stones, n) == Some(color.spec_opponent()) && !has_liberty(stones, size, n) {
        group(stones, size, n)
    } else {
        Set::empty()
    }
}

/// The stones taken by way of the first `upto` of the listed points.
pub open spec fn taken_upto(
    stones: Stones,
    size: int,
    color: StoneColor,
    around: Seq<(u32, u32)>,
    upto: int,
) -> Set<Point> {
    Set::new(
        |q: Point|
            exists|k: int|
                0 <= k < upto && #[trigger] taken_via(stones, size, color, pt(around[k])).contains(
                    q,
                ),
    )
}

proof fn lemma_taken_upto_next(
    stones: Stones,
    size: int,
    color: StoneColor,
    around: Seq<(u32, u32)>,
    upto: int,
)
    requires
        0 <= upto,
    ensures
        taken_upto(stones, size, color, around, upto + 1) == taken_upto(
            stones,
            size,
            color,
            around,
            upto,
        ).union(taken_via(stones, size, color, pt(around[upto]))),
{
    let next = taken_upto(stones, size, color, around, upto + 1);
    let sofar = taken_upto(stones, size, color, around, upto);
    let via = taken_via(stones, size, color, pt(around[upto]));
    assert forall|q: Point| next.contains(q) <==> sofar.union(via).contains(q) by {
        if next.contains(q) {
        }
    }
}

/// What is taken by way of all the neighbours of the new stone is what the
/// move captures.
proof fn lemma_taken_all(
    stones: Stones,
    size: int,
    color: StoneColor,
    at: Point,
    around: Seq<(u32, u32)>,
)
    requires
        on_board(size, at),
        around.map_values(|c: (u32, u32)| pt(c)) == neighbors_of(size, at),
    ensures
        taken_upto(stones, size, color, around, around.len() as int) == captured(
            stones,
            size,
            at,
            color,
        ),
{
    let all = taken_upto(stones, size, color, around, around.len() as int);
    let points = around.map_values(|c: (u32, u32)| pt(c));
    lemma_neighbors_of(size, at);
    assert forall|q: Point| all.contains(q) <==> is_captured(stones, size, at, color, q) by {
        if all.contains(q) {
            let k = choose|k: int|
                0 <= k < around.len() && #[trigger] taken_via(
                    stones,
                    size,
                    color,
                    pt(around[k]),
                ).contains(q);
            let n = pt(around[k]);
            assert(points[k] == n);
            assert(neighbors_of(size, at).contains(n));
            assert(connected(stones, size, n, q));
        }
        if is_captured(stones, size, at, color, q) {
            let n = choose|n: Point|
                {
                    &&& adjacent(at, n)
                    &&& on_board(size, n)
                    &&& stone_at(stones, n) == Some(color.spec_opponent())
                    &&& #[trigger] connected(stones, size, n, q)
                    &&& !has_liberty(stones, size, n)
                };
            assert(neighbors_of(size, at).contains(n));
            let k = choose|k: int| 0 <= k < points.len() && points[k] == n;
            assert(taken_via(stones, size, color, pt(around[k])).contains(q));
        }
    }
}

/// The group of a stone has a liberty exactly when its set of liberties is
/// not empty.
proof fn lemma_has_liberty(stones: Stones, size: int, p: Point)
    requires
        liberties(stones, size, p).finite(),
    ensures
        has_liberty(stones, size, p) <==> liberties(stones, size, p).len() > 0,
{
    let libs = liberties(stones, size, p);
    if has_liberty(stones, size, p) {
        let l = choose|l: Point| #[trigger] is_liberty(stones, size, p, l);
        assert(libs.contains(l));
        if libs.len() == 0 {
            libs.lemma_len0_is_empty();
        }
    }
    if libs.len() > 0 {
        vstd::set::axiom_set_choose_len(libs);
    }
}

/// A set of one element is that element alone.
proof fn lemma_only_element(s: Set<Point>, e: Point)
    requires
        s.finite(),
        s.len() == 1,
        s.contains(e),
    ensures
        s.choose() == e,
{
    let c = s.choose();
    if c != e {
        let rest = s.remove(e);
        rest.lemma_len0_is_empty();
    }
}

proof fn lemma_point_set_take(s: Seq<(u32, u32)>, j: int)
    requires
        0 <= j < s.len(),
    ensures
        point_set(s.take(j + 1)) == point_set(s.take(j)).insert(pt(s[j])),
{
    let a = s.take(j);
    let b = s.take(j + 1);
    assert forall|p: Point| point_set(b).contains(p) <==> point_set(a).insert(pt(s[j])).contains(
        p,
    ) by {
        if in_seq(b, p) {
        }
        if p == pt(s[j]) {
            assert(pt(b[j]) == p);
        }
    }
}

/// Empties the listed points of the grid.
fn clear_cells(grid: &mut Vec<Option<StoneColor>>, size: u32, cells: &Vec<(u32, u32)>)
    requires
        size <= MAX_SIZE,
        old(grid)@.len() == size * size,
        forall|k: int| 0 <= k < cells@.len() ==> on_board(size as int, pt(#[trigger] cells@[k])),
    ensures
        final(grid)@.len() == old(grid)@.len(),
        grid_stones(final(grid)@, size as int) == grid_stones(
            old(grid)@,
            size as int,
        ).remove_keys(point_set(cells@)),
{
    let ghost before = grid_stones(grid@, size as int);
    let mut j: usize = 0;
    while j < cells.len()
        invariant
            j <= cells.len(),
            size <= MAX_SIZE,
            grid@.len() == size * size,
            forall|k: int|
                0 <= k < cells@.len() ==> on_board(size as int, pt(#[trigger] cells@[k])),
            grid_stones(grid@, size as int) == before.remove_keys(
                point_set(cells@.take(j as int)),
            ),
        decreases cells.len() - j,
    {
        let c = cells[j];
        let i = index_of(size, c.0, c.1);
        proof {
            lemma_grid_update(grid@, size as int, pt(c), None);
            lemma_point_set_take(cells@, j as int);
        }
        grid.set(i, None);
        j = j + 1;
    }
    proof {
        assert(cells@.take(cells.len() as int) =~= cells@);
    }
}

impl View for Board {
    type V = Position;

    closed spec fn view(&self) -> Position {
        Position {
            size: self.size as int,
            stones: grid_stones(self.grid@, self.size as int),
            ko: match self.last_captured_pos {
                Some(c) => Some(pt(c)),
                None => None,
            },
        }
    }
}

impl Board {
    #[verifier::type_invariant]
    spec fn well_formed(&self) -> bool {
        &&& self.size <= MAX_SIZE
        &&& self.grid@.len() == self.size * self.size
    }

    /// Creates the empty board of the given side length.
    pub fn new(size: u32) -> (board: Arc<Board>)
        requires
            size <= MAX_SIZE,
        ensures
            board@ == empty_position(size as int),
    {
        proof {
            assert(size * size <= 0xFFFF * 0xFFFF) by (nonlinear_arith)
                requires
                    0 <= size <= 0xFFFF,
            ;
        }
        let cells: usize = (size * size) as usize;
        let mut grid: Vec<Option<StoneColor>> = Vec::new();
        let mut i: usize = 0;
        while i < cells
            invariant
                i <= cells,
                grid@.len() == i,
                forall|k: int| 0 <= k < grid@.len() ==> grid@[k] is None,
            decreases cells - i,
        {
            grid.push(None);
            i = i + 1;
        }
        proof {
            assert forall|p: Point| !grid_stones(grid@, size as int).dom().contains(p) by {
                if on_board(size as int, p) {
                    lemma_cell_index_bounds(size as int, p);
                }
            }
            assert(grid_stones(grid@, size as int) =~= Map::empty());
        }
        Arc::new(Board { size, grid, last_captured_pos: None })
    }

    /// Returns the side length.
    pub fn get_size(&self) -> (size: u32)
        ensures
            size == self@.size,
    {
        self.size
    }

    /// Returns what stands on `(x, y)`: nothing where the point is empty or
    /// lies off the board.
    pub fn get_stone(&self, x: u32, y: u32) -> (content: Option<StoneColor>)
        ensures
            content == if on_board(self@.size, (x as int, y as int)) {
                stone_at(self@.stones, (x as int, y as int))
            } else {
                None
            },
    {
        proof {
            use_type_invariant(self);
        }
        if x >= self.size || y >= self.size {
            return None;
        }
        read_cell(self.grid.as_slice(), self.size, x, y)
    }

    /// Plays a stone of `color` on `(x, y)`. Returns the board after the
    /// move, with the captured stones taken off, or the rule that forbids
    /// the move.
    pub fn place_stone(&self, x: u32, y: u32, color: StoneColor) -> (res: Result<
        Arc<Board>,
        SgfError,
    >)
        ensures
            match (res, play(self@, (x as int, y as int), color)) {
                (Ok(board), Ok(next)) => board@ == next,
                (Err(error), Err(reason)) => error == reason,
                _ => false,
            },
    {
        proof {
            use_type_invariant(self);
        }
        let size = self.size;
        let ghost at = (x as int, y as int);
        let ghost rival = color.spec_opponent();
        if x >= size || y >= size {
            return Err(SgfError::OutOfBounds);
        }
        if self.get_stone(x, y).is_some() {
            return Err(SgfError::Occupied);
        }
        let mut new_grid = self.grid.clone();
        let idx = index_of(size, x, y);
        proof {
            lemma_grid_update(new_grid@, size as int, at, Some(color));
        }
        new_grid.set(idx, Some(color));
        let ghost placed = self@.stones.insert(at, color);

        let opponent = color.opponent();
        let mut last_cap: Option<(u32, u32)> = None;
        let mut capture_count: u64 = 0;
        let ghost mut dead: Set<Point> = Set::empty();
        let around = neighbors_on(size, x, y);
        proof {
            assert(around@.len() == around@.map_values(|c: (u32, u32)| pt(c)).len());
            assert(around@.len() <= 4);
            assert(placed.remove_keys(dead) =~= placed);
            assert(size * size <= 0xFFFF * 0xFFFF) by (nonlinear_arith)
                requires
                    0 <= size <= 0xFFFF,
            ;
            lemma_neighbors_of(size as int, at);
        }
        let mut i: usize = 0;
        while i < around.len()
            invariant
                i <= around.len(),
                around@.len() <= 4,
                size <= MAX_SIZE,
                size * size <= 0xFFFF * 0xFFFF,
                on_board(size as int, at),
                rival == color.spec_opponent(),
                opponent == rival,
                around@.map_values(|c: (u32, u32)| pt(c)) == neighbors_of(size as int, at),
                forall|q: Point| #[trigger]
                    neighbors_of(size as int, at).contains(q) <==> on_board(size as int, q)
                        && adjacent(at, q),
                new_grid@.len() == size * size,
                dead == taken_upto(placed, size as int, color, around@, i as int),
                dead.finite(),
                capture_count == dead.len(),
                capture_count <= i * (size * size),
                is_whole_groups(placed, size as int, rival, dead),
                grid_stones(new_grid@, size as int) == placed.remove_keys(dead),
                capture_count > 0 ==> last_cap is Some && dead.contains(pt(last_cap->0)),
            decreases around.len() - i,
        {
            let n = around[i];
            let ghost np = pt(n);
            let ghost rest = placed.remove_keys(dead);
            proof {
                assert(around@.map_values(|c: (u32, u32)| pt(c))[i as int] == np);
                assert(neighbors_of(size as int, at).contains(np));
                lemma_taken_upto_next(placed, size as int, color, around@, i as int);
                assert(i * (size * size) + size * size == (i + 1) * (size * size))
                    by (nonlinear_arith);
                assert(i * (size * size) <= 4 * (0xFFFF * 0xFFFF)) by (nonlinear_arith)
                    requires
                        0 <= i <= 4,
                        0 <= size * size <= 0xFFFF * 0xFFFF,
                ;
            }
            let content = read_cell(new_grid.as_slice(), size, n.0, n.1);
            if same_content(content, Some(opponent)) {
                proof {
                    lemma_removal_keeps_others(placed, size as int, rival, dead, np);
                }
                let walked = explore(new_grid.as_slice(), size, n.0, n.1);
                proof {
                    lemma_has_liberty(rest, size as int, np);
                }
                if walked.1 == 0 {
                    let taken = walked.0;
                    proof {
                        lemma_point_set_len(taken@);
                        lemma_group_is_whole(placed, size as int, rival, np);
                        lemma_connected_refl(placed, size as int, np);
                        assert(group(placed, size as int, np).contains(np));
                        assert forall|k: int| 0 <= k < taken@.len() implies on_board(
                            size as int,
                            pt(#[trigger] taken@[k]),
                        ) by {
                            assert(point_set(taken@).contains(pt(taken@[k])));
                            lemma_connected_same(placed, size as int, np, pt(taken@[k]));
                        }
                        assert(dead.disjoint(point_set(taken@))) by {
                            assert forall|q: Point|
                                dead.contains(q) && point_set(taken@).contains(
                                    q,
                                ) implies false by {}
                        }
                        vstd::set_lib::lemma_set_disjoint_lens(dead, point_set(taken@));
                    }
                    clear_cells(&mut new_grid, size, &taken);
                    capture_count = capture_count + taken.len() as u64;
                    last_cap = Some(taken[taken.len() - 1]);
                    proof {
                        dead = dead.union(point_set(taken@));
                    }
                }
            } else {
                proof {
                    let via = taken_via(placed, size as int, color, np);
                    if stone_at(placed, np) == Some(rival) && !has_liberty(
                        placed,
                        size as int,
                        np,
                    ) {
                        let k = choose|k: int|
                            0 <= k < i && #[trigger] taken_via(
                                placed,
                                size as int,
                                color,
                                pt(around@[k]),
                            ).contains(np);
                        let other = pt(around@[k]);
                        lemma_group_shared(placed, size as int, other, np);
                        assert(via.subset_of(dead)) by {
                            assert forall|q: Point| via.contains(q) implies dead.contains(q) by {}
                        }
                    } else {
                        assert(via =~= Set::empty());
                    }
                }
            }
            i = i + 1;
        }
        proof {
            lemma_taken_all(placed, size as int, color, at, around@);
            if capture_count == 0 {
                dead.lemma_len0_is_empty();
            }
        }

        if capture_count == 0 {
            let own = explore(new_grid.as_slice(), size, x, y);
            proof {
                lemma_has_liberty(placed, size as int, at);
            }
            if own.1 == 0 {
                return Err(SgfError::Suicide);
            }
        }
        if capture_count == 1 {
            proof {
                lemma_only_element(dead, pt(last_cap->0));
            }
            match self.last_captured_pos {
                Some(barred) => {
                    if barred.0 == x && barred.1 == y {
                        return Err(SgfError::KoViolation);
                    }
                },
                None => {},
            }
        } else {
            last_cap = None;
        }
        Ok(Arc::new(Board { size, grid: new_grid, last_captured_pos: last_cap }))
    }

    /// Returns the points of the board next to `(x, y)`, in the order left,
    /// right, up, down.
    pub fn neighbors(&self, x: u32, y: u32) -> (around: Vec<(u32, u32)>)
        requires
            self@.size > 0,
        ensures
            around@.map_values(|c: (u32, u32)| pt(c)) == neighbors_of(
                self@.size,
                (x as int, y as int),
            ),
    {
        neighbors_on(self.size, x, y)
    }

    /// Returns the group of `(x, y)` on a grid of this board's size: every
    /// point connected to it, each once.
    pub fn get_group(&self, grid: &[Option<StoneColor>], x: u32, y: u32) -> (members: Vec<
        (u32, u32),
    >)
        requires
            grid@.len() == self@.size * self@.size,
            on_board(self@.size, (x as int, y as int)),
        ensures
            members@.no_duplicates(),
            point_set(members@) == group(
                grid_stones(grid@, self@.size),
                self@.size,
                (x as int, y as int),
            ),
    {
        proof {
            use_type_invariant(self);
        }
        explore(grid, self.size, x, y).0
    }

    /// Returns the number of liberties of the group of `(x, y)` on a grid of
    /// this board's size.
    pub fn count_liberties(&self, grid: &[Option<StoneColor>], x: u32, y: u32) -> (count: u32)
        requires
            grid@.len() == self@.size * self@.size,
            on_board(self@.size, (x as int, y as int)),
        ensures
            liberties(grid_stones(grid@, self@.size), self@.size, (x as int, y as int)).finite(),
            count == liberties(
                grid_stones(grid@, self@.size),
                self@.size,
                (x as int, y as int),
            ).len(),
    {
        proof {
            use_type_invariant(self);
        }
        explore(grid, self.size, x, y).1
    }
}

} // verus!
