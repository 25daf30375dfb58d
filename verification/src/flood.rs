//! The traversal that finds the group of a point and counts its liberties.
//!
//! One depth-first walk serves both: it spreads over neighbouring points that
//! hold what the starting point holds, and notes the empty points it meets on
//! the way.

use vstd::prelude::*;
use crate::color::StoneColor;
use crate::connectivity::{
    lemma_connected_refl,
    lemma_connected_same,
    lemma_connected_step,
    lemma_group_least,
};
use crate::grid::{
    cell_index,
    grid_stones,
    in_seq,
    index_of,
    lemma_cell_index_bounds,
    lemma_cell_index_injective,
    lemma_neighbors_of,
    neighbors_of,
    point_set,
    pt,
    read_cell,
    same_content,
    MAX_SIZE,
};
use crate::rules::{
    adjacent,
    connected,
    group,
    is_liberty,
    liberties,
    on_board,
    stone_at,
    Point,
    Stones,
};

verus! {

/// The number of cells not yet marked.
pub open spec fn unmarked(marks: Seq<bool>) -> nat
    decreases marks.len(),
{
    if marks.len() == 0 {
        0
    } else {
        unmarked(marks.drop_last()) + if marks.last() {
            0nat
        } else {
            1nat
        }
    }
}

proof fn lemma_unmarked_bound(marks: Seq<bool>)
    ensures
        unmarked(marks) <= marks.len(),
    decreases marks.len(),
{
    if marks.len() > 0 {
        lemma_unmarked_bound(marks.drop_last());
    }
}

proof fn lemma_unmarked_set(marks: Seq<bool>, i: int)
    requires
        0 <= i < marks.len(),
        !marks[i],
    ensures
        unmarked(marks.update(i, true)) + 1 == unmarked(marks),
    decreases marks.len(),
{
    let after = marks.update(i, true);
    if i == marks.len() - 1 {
        assert(after.drop_last() =~= marks.drop_last());
    } else {
        lemma_unmarked_set(marks.drop_last(), i);
        assert(after.drop_last() =~= marks.drop_last().update(i, true));
    }
}

/// The point has been visited.
pub open spec fn is_marked(marks: Seq<bool>, size: int, p: Point) -> bool {
    marks[cell_index(size, p)]
}

/// The point is next to one of the listed points.
pub open spec fn next_to_member(members: Seq<(u32, u32)>, p: Point) -> bool {
    exists|j: int| 0 <= j < members.len() && adjacent(pt(#[trigger] members[j]), p)
}

/// What holds of the traversal between two steps.
///
/// `members` are the visited points that hold what `start` holds; they are
/// connected to `start`, and each neighbour of theirs is visited or waits on
/// the stack. `found` are the visited empty points, each next to a member.
pub open spec fn explored(
    stones: Stones,
    size: int,
    start: Point,
    members: Seq<(u32, u32)>,
    stack: Seq<(u32, u32)>,
    marks: Seq<bool>,
    found: Set<Point>,
) -> bool {
    let held = stone_at(stones, start);
    &&& marks.len() == size * size
    &&& on_board(size, start)
    &&& members.no_duplicates()
    &&& forall|k: int|
        0 <= k < members.len() ==> {
            let p = pt(#[trigger] members[k]);
            on_board(size, p) && is_marked(marks, size, p) && connected(stones, size, start, p)
        }
    &&& forall|p: Point|
        on_board(size, p) && #[trigger] is_marked(marks, size, p) && stone_at(stones, p) == held
            ==> in_seq(members, p)
    &&& forall|k: int|
        0 <= k < stack.len() ==> {
            let p = pt(#[trigger] stack[k]);
            on_board(size, p) && (p == start || next_to_member(members, p))
        }
    &&& forall|k: int, q: Point|
        0 <= k < members.len() && on_board(size, q) && #[trigger] adjacent(pt(members[k]), q)
            ==> is_marked(marks, size, q) || in_seq(stack, q)
    &&& is_marked(marks, size, start) || in_seq(stack, start)
    &&& found.finite()
    &&& forall|q: Point|
        found.contains(q) <==> on_board(size, q) && is_marked(marks, size, q) && stone_at(
            stones,
            q,
        ) is None && held is Some
    &&& forall|q: Point| found.contains(q) ==> next_to_member(members, q)
    &&& found.len() + members.len() + unmarked(marks) <= size * size
}

proof fn lemma_explore_start(stones: Stones, size: int, start: (u32, u32), marks: Seq<bool>)
    requires
        on_board(size, pt(start)),
        marks.len() == size * size,
        forall|i: int| 0 <= i < marks.len() ==> !marks[i],
    ensures
        explored(stones, size, pt(start), Seq::empty(), seq![start], marks, Set::empty()),
{
    let stack = seq![start];
    assert(pt(stack[0]) == pt(start));
    lemma_unmarked_bound(marks);
    assert forall|p: Point| on_board(size, p) implies !#[trigger] is_marked(marks, size, p) by {
        lemma_cell_index_bounds(size, p);
    }
}

/// An element of a list is its last entry or occurs before it.
proof fn lemma_in_longer(s: Seq<(u32, u32)>, p: Point)
    requires
        in_seq(s, p),
        s.len() > 0,
    ensures
        pt(s.last()) == p || in_seq(s.drop_last(), p),
{
    let k = choose|k: int| 0 <= k < s.len() && pt(#[trigger] s[k]) == p;
    if k < s.len() - 1 {
        assert(pt(s.drop_last()[k]) == p);
    }
}

proof fn lemma_in_prefix(a: Seq<(u32, u32)>, b: Seq<(u32, u32)>, p: Point)
    requires
        in_seq(a, p),
    ensures
        in_seq(a + b, p),
{
    let k = choose|k: int| 0 <= k < a.len() && pt(#[trigger] a[k]) == p;
    assert(pt((a + b)[k]) == p);
}

proof fn lemma_next_to_more(members: Seq<(u32, u32)>, c: (u32, u32), p: Point)
    requires
        next_to_member(members, p),
    ensures
        next_to_member(members.push(c), p),
{
    let j = choose|j: int| 0 <= j < members.len() && adjacent(pt(#[trigger] members[j]), p);
    assert(adjacent(pt(members.push(c)[j]), p));
}

/// The point on top of the stack was visited before: dropping it keeps the
/// state of the traversal.
proof fn lemma_explore_skip(
    stones: Stones,
    size: int,
    start: Point,
    members: Seq<(u32, u32)>,
    stack: Seq<(u32, u32)>,
    marks: Seq<bool>,
    found: Set<Point>,
)
    requires
        explored(stones, size, start, members, stack, marks, found),
        stack.len() > 0,
        is_marked(marks, size, pt(stack.last())),
    ensures
        explored(stones, size, start, members, stack.drop_last(), marks, found),
{
    let rest = stack.drop_last();
    assert forall|k: int| 0 <= k < rest.len() implies {
        let p = pt(#[trigger] rest[k]);
        on_board(size, p) && (p == start || next_to_member(members, p))
    } by {}
    assert forall|k: int, q: Point|
        0 <= k < members.len() && on_board(size, q) && #[trigger] adjacent(
            pt(members[k]),
            q,
        ) implies is_marked(marks, size, q) || in_seq(rest, q) by {
        if !is_marked(marks, size, q) {
            lemma_in_longer(stack, q);
        }
    }
    if !is_marked(marks, size, start) {
        lemma_in_longer(stack, start);
    }
}

/// Marking a point of the board marks no other point of the board.
proof fn lemma_mark(marks: Seq<bool>, size: int, c: Point)
    requires
        on_board(size, c),
        marks.len() == size * size,
    ensures
        is_marked(marks.update(cell_index(size, c), true), size, c),
        forall|q: Point|
            on_board(size, q) && q != c ==> (#[trigger] is_marked(
                marks.update(cell_index(size, c), true),
                size,
                q,
            ) <==> is_marked(marks, size, q)),
{
    lemma_cell_index_bounds(size, c);
    assert forall|q: Point| on_board(size, q) && q != c implies (#[trigger] is_marked(
        marks.update(cell_index(size, c), true),
        size,
        q,
    ) <==> is_marked(marks, size, q)) by {
        lemma_cell_index_bounds(size, q);
        if cell_index(size, q) == cell_index(size, c) {
            lemma_cell_index_injective(size, q, c);
        }
    }
}

/// The point on top of the stack is new and holds what the start holds: it
/// joins the group and its neighbours go on the stack.
proof fn lemma_explore_member(
    stones: Stones,
    size: int,
    start: Point,
    members: Seq<(u32, u32)>,
    stack: Seq<(u32, u32)>,
    marks: Seq<bool>,
    found: Set<Point>,
    around: Seq<(u32, u32)>,
)
    requires
        explored(stones, size, start, members, stack, marks, found),
        stack.len() > 0,
        !is_marked(marks, size, pt(stack.last())),
        stone_at(stones, pt(stack.last())) == stone_at(stones, start),
        around.map_values(|c: (u32, u32)| pt(c)) == neighbors_of(size, pt(stack.last())),
    ensures
        explored(
            stones,
            size,
            start,
            members.push(stack.last()),
            stack.drop_last() + around,
            marks.update(cell_index(size, pt(stack.last())), true),
            found,
        ),
        unmarked(marks.update(cell_index(size, pt(stack.last())), true)) + 1 == unmarked(marks),
{
    let c = stack.last();
    let more = members.push(c);
    let rest = stack.drop_last() + around;
    let marked = marks.update(cell_index(size, pt(c)), true);
    let around_points = around.map_values(|c: (u32, u32)| pt(c));
    lemma_cell_index_bounds(size, pt(c));
    lemma_unmarked_set(marks, cell_index(size, pt(c)));
    lemma_mark(marks, size, pt(c));
    lemma_neighbors_of(size, pt(c));
    // The new member is connected to the start.
    if pt(c) == start {
        lemma_connected_refl(stones, size, start);
    } else {
        let j = choose|j: int| 0 <= j < members.len() && adjacent(pt(#[trigger] members[j]), pt(c));
        lemma_connected_step(stones, size, start, pt(members[j]), pt(c));
    }
    // It is not among the members yet.
    assert forall|i: int, j: int|
        0 <= i < more.len() && 0 <= j < more.len() && i != j implies more[i]
        != more[j] by {
        if i == members.len() {
            assert(is_marked(marks, size, pt(members[j])));
        } else if j == members.len() {
            assert(is_marked(marks, size, pt(members[i])));
        }
    }
    assert forall|k: int| 0 <= k < more.len() implies {
        let p = pt(#[trigger] more[k]);
        on_board(size, p) && is_marked(marked, size, p) && connected(stones, size, start, p)
    } by {
        if k < members.len() {
            assert(more[k] == members[k]);
        }
    }
    assert forall|p: Point|
        on_board(size, p) && #[trigger] is_marked(marked, size, p) && stone_at(stones, p)
            == stone_at(stones, start) implies in_seq(more, p) by {
        if p == pt(c) {
            assert(pt(more[members.len() as int]) == p);
        } else {
            assert(is_marked(marks, size, p));
            let k = choose|k: int| 0 <= k < members.len() && pt(#[trigger] members[k]) == p;
            assert(pt(more[k]) == p);
        }
    }
    assert forall|k: int| 0 <= k < rest.len() implies {
        let p = pt(#[trigger] rest[k]);
        on_board(size, p) && (p == start || next_to_member(more, p))
    } by {
        if k < stack.len() - 1 {
            if pt(stack[k]) != start {
                lemma_next_to_more(members, c, pt(stack[k]));
            }
        } else {
            let a = k - (stack.len() - 1);
            assert(around_points[a] == pt(around[a]));
            assert(neighbors_of(size, pt(c)).contains(pt(around[a])));
            assert(adjacent(pt(more[members.len() as int]), pt(rest[k])));
        }
    }
    assert forall|k: int, q: Point|
        0 <= k < more.len() && on_board(size, q) && #[trigger] adjacent(
            pt(more[k]),
            q,
        ) implies is_marked(marked, size, q) || in_seq(rest, q) by {
        if k < members.len() {
            if q != pt(c) && !is_marked(marks, size, q) {
                lemma_in_longer(stack, q);
                lemma_in_prefix(stack.drop_last(), around, q);
            }
        } else {
            assert(neighbors_of(size, pt(c)).contains(q));
            let a = choose|a: int| 0 <= a < around_points.len() && around_points[a] == q;
            assert(pt(rest[stack.len() - 1 + a]) == q);
        }
    }
    if !is_marked(marked, size, start) {
        lemma_in_longer(stack, start);
        lemma_in_prefix(stack.drop_last(), around, start);
    }
    assert forall|q: Point| found.contains(q) implies next_to_member(more, q) by {
        lemma_next_to_more(members, c, q);
    }
    assert forall|q: Point|
        found.contains(q) <==> on_board(size, q) && is_marked(marked, size, q) && stone_at(
            stones,
            q,
        ) is None && stone_at(stones, start) is Some by {}
}

/// The point on top of the stack is new and holds something else than the
/// start: it is marked, and counted as a liberty where it is empty.
proof fn lemma_explore_border(
    stones: Stones,
    size: int,
    start: Point,
    members: Seq<(u32, u32)>,
    stack: Seq<(u32, u32)>,
    marks: Seq<bool>,
    found: Set<Point>,
)
    requires
        explored(stones, size, start, members, stack, marks, found),
        stack.len() > 0,
        !is_marked(marks, size, pt(stack.last())),
        stone_at(stones, pt(stack.last())) != stone_at(stones, start),
    ensures
        explored(
            stones,
            size,
            start,
            members,
            stack.drop_last(),
            marks.update(cell_index(size, pt(stack.last())), true),
            if stone_at(stones, pt(stack.last())) is None {
                found.insert(pt(stack.last()))
            } else {
                found
            },
        ),
        unmarked(marks.update(cell_index(size, pt(stack.last())), true)) + 1 == unmarked(marks),
        !found.contains(pt(stack.last())),
{
    let c = stack.last();
    let rest = stack.drop_last();
    let marked = marks.update(cell_index(size, pt(c)), true);
    let noted = if stone_at(stones, pt(c)) is None {
        found.insert(pt(c))
    } else {
        found
    };
    assert(on_board(size, pt(stack[stack.len() - 1])));
    lemma_cell_index_bounds(size, pt(c));
    lemma_unmarked_set(marks, cell_index(size, pt(c)));
    lemma_mark(marks, size, pt(c));
    assert forall|k: int| 0 <= k < members.len() implies {
        let p = pt(#[trigger] members[k]);
        on_board(size, p) && is_marked(marked, size, p) && connected(stones, size, start, p)
    } by {
        assert(is_marked(marks, size, pt(members[k])));
    }
    assert forall|p: Point|
        on_board(size, p) && #[trigger] is_marked(marked, size, p) && stone_at(stones, p)
            == stone_at(stones, start) implies in_seq(members, p) by {
        assert(is_marked(marks, size, p));
    }
    assert forall|k: int| 0 <= k < rest.len() implies {
        let p = pt(#[trigger] rest[k]);
        on_board(size, p) && (p == start || next_to_member(members, p))
    } by {}
    assert forall|k: int, q: Point|
        0 <= k < members.len() && on_board(size, q) && #[trigger] adjacent(
            pt(members[k]),
            q,
        ) implies is_marked(marked, size, q) || in_seq(rest, q) by {
        if q != pt(c) && !is_marked(marks, size, q) {
            lemma_in_longer(stack, q);
        }
    }
    if !is_marked(marked, size, start) {
        lemma_in_longer(stack, start);
    }
    assert forall|q: Point|
        noted.contains(q) <==> on_board(size, q) && is_marked(marked, size, q) && stone_at(
            stones,
            q,
        ) is None && stone_at(stones, start) is Some by {}
    assert forall|q: Point| noted.contains(q) implies next_to_member(members, q) by {}
}

/// With nothing left on the stack the members are the group of the start,
/// and the noted points are its liberties.
proof fn lemma_explore_done(
    stones: Stones,
    size: int,
    start: Point,
    members: Seq<(u32, u32)>,
    marks: Seq<bool>,
    found: Set<Point>,
)
    requires
        explored(stones, size, start, members, Seq::empty(), marks, found),
    ensures
        point_set(members) == group(stones, size, start),
        found == liberties(stones, size, start),
{
    let held = stone_at(stones, start);
    let set = point_set(members);
    let none: Seq<(u32, u32)> = Seq::empty();
    assert forall|p: Point| !in_seq(none, p) by {}
    assert forall|p: Point| set.contains(p) implies stone_at(stones, p) == held && connected(
        stones,
        size,
        start,
        p,
    ) by {
        let k = choose|k: int| 0 <= k < members.len() && pt(#[trigger] members[k]) == p;
        lemma_connected_same(stones, size, start, pt(members[k]));
    }
    assert forall|p: Point, q: Point|
        #![trigger set.contains(p), adjacent(p, q)]
        set.contains(p) && adjacent(p, q) && on_board(size, q) && stone_at(stones, q) == stone_at(
            stones,
            p,
        ) implies set.contains(q) by {}
    assert forall|q: Point| set.contains(q) <==> connected(stones, size, start, q) by {
        if connected(stones, size, start, q) {
            lemma_group_least(stones, size, start, set, q);
        }
    }
    assert forall|l: Point| found.contains(l) <==> is_liberty(stones, size, start, l) by {
        if is_liberty(stones, size, start, l) {
        }
    }
}

/// Returns the points of the board next to `(x, y)`, in the order left,
/// right, up, down.
pub fn neighbors_on(size: u32, x: u32, y: u32) -> (around: Vec<(u32, u32)>)
    requires
        size > 0,
    ensures
        around@.map_values(|c: (u32, u32)| pt(c)) == neighbors_of(
            size as int,
            (x as int, y as int),
        ),
{
    let mut around: Vec<(u32, u32)> = Vec::new();
    if x > 0 {
        around.push((x - 1, y));
    }
    if x < size - 1 {
        around.push((x + 1, y));
    }
    if y > 0 {
        around.push((x, y - 1));
    }
    if y < size - 1 {
        around.push((x, y + 1));
    }
    around
}

/// Returns a vector of `len` unset marks.
fn clear_marks(len: usize) -> (marks: Vec<bool>)
    ensures
        marks@.len() == len,
        forall|i: int| 0 <= i < marks@.len() ==> !marks@[i],
{
    let mut marks: Vec<bool> = Vec::new();
    let mut i: usize = 0;
    while i < len
        invariant
            i <= len,
            marks@.len() == i,
            forall|k: int| 0 <= k < marks@.len() ==> !marks@[k],
        decreases len - i,
    {
        marks.push(false);
        i = i + 1;
    }
    marks
}

/// Walks the group of `(x, y)` once. Returns its points, each once, and the
/// number of its liberties.
pub fn explore(grid: &[Option<StoneColor>], size: u32, x: u32, y: u32) -> (res: (
    Vec<(u32, u32)>,
    u32,
))
    requires
        size <= MAX_SIZE,
        x < size,
        y < size,
        grid@.len() == size * size,
    ensures
        res.0@.no_duplicates(),
        res.0@.len() <= size * size,
        point_set(res.0@) == group(
            grid_stones(grid@, size as int),
            size as int,
            (x as int, y as int),
        ),
        liberties(grid_stones(grid@, size as int), size as int, (x as int, y as int)).finite(),
        res.1 == liberties(
            grid_stones(grid@, size as int),
            size as int,
            (x as int, y as int),
        ).len(),
{
    let ghost stones = grid_stones(grid@, size as int);
    let ghost start = (x as int, y as int);
    let held = read_cell(grid, size, x, y);
    proof {
        assert(size * size <= 0xFFFF * 0xFFFF) by (nonlinear_arith)
            requires
                0 <= size <= 0xFFFF,
        ;
    }
    let mut marks = clear_marks(grid.len());
    let mut members: Vec<(u32, u32)> = Vec::new();
    let mut stack: Vec<(u32, u32)> = Vec::new();
    stack.push((x, y));
    let mut count: u32 = 0;
    let ghost mut found: Set<Point> = Set::empty();
    proof {
        lemma_explore_start(stones, size as int, (x, y), marks@);
    }
    while stack.len() > 0
        invariant
            size <= MAX_SIZE,
            grid@.len() == size * size,
            size * size <= 0xFFFF * 0xFFFF,
            stones == grid_stones(grid@, size as int),
            start == (x as int, y as int),
            held == stone_at(stones, start),
            explored(stones, size as int, start, members@, stack@, marks@, found),
            count == found.len(),
        decreases unmarked(marks@), stack.len(),
    {
        let ghost before = stack@;
        let ghost marks_before = marks@;
        let top = stack.pop().unwrap();
        let cx = top.0;
        let cy = top.1;
        let i = index_of(size, cx, cy);
        if marks[i] {
            proof {
                lemma_explore_skip(stones, size as int, start, members@, before, marks@, found);
            }
        } else {
            marks.set(i, true);
            let content = read_cell(grid, size, cx, cy);
            if same_content(content, held) {
                let ghost members_before = members@;
                members.push((cx, cy));
                let around = neighbors_on(size, cx, cy);
                let mut j: usize = 0;
                while j < around.len()
                    invariant
                        j <= around.len(),
                        stack@ == before.drop_last() + around@.take(j as int),
                    decreases around.len() - j,
                {
                    stack.push(around[j]);
                    j = j + 1;
                }
                proof {
                    assert(around@.take(around.len() as int) =~= around@);
                    lemma_explore_member(
                        stones,
                        size as int,
                        start,
                        members_before,
                        before,
                        marks_before,
                        found,
                        around@,
                    );
                }
            } else {
                proof {
                    lemma_explore_border(
                        stones,
                        size as int,
                        start,
                        members@,
                        before,
                        marks_before,
                        found,
                    );
                }
                if content.is_none() {
                    count = count + 1;
                    proof {
                        found = found.insert(pt(top));
                    }
                }
            }
        }
    }
    proof {
        lemma_explore_done(stones, size as int, start, members@, marks@, found);
    }
    (members, count)
}

} // verus!
