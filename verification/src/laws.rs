//! Laws of the rules of play, proved from their definition.

use vstd::prelude::*;
use crate::color::StoneColor;
use crate::connectivity::{
    is_closed,
    lemma_connected_refl,
    lemma_connected_same,
    lemma_connected_step,
    lemma_connected_sym,
    lemma_connected_trans,
    lemma_group_least,
    lemma_liberties_shared,
};
use crate::error::SgfError;
use crate::grid::{cell_index, lemma_cell_index_bounds};
use crate::rules::{
    adjacent,
    captured,
    connected,
    empty_position,
    group,
    has_liberty,
    is_chain,
    is_liberty,
    liberties,
    on_board,
    play,
    stone_at,
    Point,
    Position,
    Stones,
};

verus! {

/// All the points of a board.
pub open spec fn board_points(size: int) -> Set<Point> {
    Set::new(|p: Point| on_board(size, p))
}

/// A board has finitely many points.
pub proof fn lemma_board_finite(size: int)
    ensures
        board_points(size).finite(),
{
    if size <= 0 {
        assert(board_points(size) =~= Set::empty());
    } else {
        let indices = vstd::set_lib::set_int_range(0, size * size);
        let point_of = |i: int| (i % size, i / size);
        vstd::set_lib::lemma_int_range(0, size * size);
        indices.lemma_map_finite(point_of);
        assert forall|p: Point| board_points(size).contains(p) implies indices.map(
            point_of,
        ).contains(p) by {
            let i = cell_index(size, p);
            lemma_cell_index_bounds(size, p);
            vstd::arithmetic::div_mod::lemma_fundamental_div_mod_converse(i, size, p.1, p.0);
            assert(indices.contains(i));
        }
        vstd::set_lib::lemma_len_subset(board_points(size), indices.map(point_of));
    }
}

/// A move captures finitely many stones, all of them on the board.
pub proof fn lemma_captured_finite(stones: Stones, size: int, at: Point, color: StoneColor)
    ensures
        captured(stones, size, at, color).finite(),
        forall|q: Point| captured(stones, size, at, color).contains(q) ==> on_board(size, q),
{
    let dead = captured(stones, size, at, color);
    assert forall|q: Point| dead.contains(q) implies on_board(size, q) by {
        let n = choose|n: Point|
            {
                &&& adjacent(at, n)
                &&& on_board(size, n)
                &&& stone_at(stones, n) == Some(color.spec_opponent())
                &&& #[trigger] connected(stones, size, n, q)
                &&& !has_liberty(stones, size, n)
            };
        lemma_connected_same(stones, size, n, q);
    }
    lemma_board_finite(size);
    vstd::set_lib::lemma_len_subset(dead, board_points(size));
}

/// Every point of a new board is empty.
pub proof fn lemma_new_board_is_empty(size: int, p: Point)
    ensures
        stone_at(empty_position(size).stones, p) is None,
{
}

/// A move onto a stone is refused as occupied, whatever else holds of it.
pub proof fn lemma_occupied_is_refused(pos: Position, at: Point, color: StoneColor)
    requires
        on_board(pos.size, at),
        stone_at(pos.stones, at) is Some,
    ensures
        play(pos, at, color) == Err::<Position, SgfError>(SgfError::Occupied),
{
}

/// A stone placed on an empty point changes neither the group nor, but for
/// that point, the liberties of a stone of the other colour.
pub proof fn lemma_placement_keeps_others(
    stones: Stones,
    size: int,
    at: Point,
    color: StoneColor,
    a: Point,
)
    requires
        stone_at(stones, at) is None,
        stone_at(stones, a) == Some(color.spec_opponent()),
    ensures
        group(stones.insert(at, color), size, a) == group(stones, size, a),
        forall|l: Point|
            is_liberty(stones.insert(at, color), size, a, l) <==> is_liberty(stones, size, a, l)
                && l != at,
{
    let placed = stones.insert(at, color);
    assert forall|q: Point| connected(placed, size, a, q) <==> connected(stones, size, a, q) by {
        if connected(placed, size, a, q) {
            let path = choose|path: Seq<Point>| #[trigger]
                is_chain(placed, size, path) && path[0] == a && path.last() == q;
            assert forall|i: int| 0 <= i < path.len() implies on_board(size, #[trigger] path[i])
                && stone_at(stones, path[i]) == stone_at(stones, path[0]) by {}
            assert(is_chain(stones, size, path) && path[0] == a && path.last() == q);
        }
        if connected(stones, size, a, q) {
            let path = choose|path: Seq<Point>| #[trigger]
                is_chain(stones, size, path) && path[0] == a && path.last() == q;
            assert forall|i: int| 0 <= i < path.len() implies on_board(size, #[trigger] path[i])
                && stone_at(placed, path[i]) == stone_at(placed, path[0]) by {}
            assert(is_chain(placed, size, path) && path[0] == a && path.last() == q);
        }
    }
    assert forall|l: Point|
        is_liberty(placed, size, a, l) <==> is_liberty(stones, size, a, l) && l != at by {}
}

/// A stone played on the last liberty of an opposing group takes the whole
/// group off the board: after the move every point of the group is empty.
/// The one move of this kind that is refused is the retaking of a ko.
pub proof fn lemma_last_liberty_captures(pos: Position, at: Point, color: StoneColor, n: Point)
    requires
        stone_at(pos.stones, at) is None,
        stone_at(pos.stones, n) == Some(color.spec_opponent()),
        liberties(pos.stones, pos.size, n) == set![at],
    ensures
        match play(pos, at, color) {
            Ok(next) => forall|q: Point|
                group(pos.stones, pos.size, n).contains(q) ==> stone_at(next.stones, q) is None,
            Err(reason) => reason == SgfError::KoViolation,
        },
{
    let size = pos.size;
    let placed = pos.stones.insert(at, color);
    let dead = captured(placed, size, at, color);
    assert(liberties(pos.stones, size, n).contains(at));
    let r = choose|r: Point| #[trigger] connected(pos.stones, size, n, r) && adjacent(r, at);
    lemma_connected_same(pos.stones, size, n, r);
    lemma_placement_keeps_others(pos.stones, size, at, color, n);
    assert(group(pos.stones, size, n).contains(r));
    lemma_connected_sym(placed, size, n, r);
    lemma_liberties_shared(placed, size, n, r);
    if has_liberty(placed, size, n) {
        let l = choose|l: Point| #[trigger] is_liberty(placed, size, n, l);
        assert(liberties(pos.stones, size, n).contains(l));
    }
    assert forall|q: Point| group(pos.stones, size, n).contains(q) implies dead.contains(q) by {
        lemma_connected_trans(placed, size, r, n, q);
    }
    lemma_connected_refl(pos.stones, size, n);
    assert(dead.contains(n));
}

/// A group that still has a liberty once the stone is placed stays on the
/// board.
pub proof fn lemma_group_with_liberty_stays(pos: Position, at: Point, color: StoneColor, q: Point)
    requires
        stone_at(pos.stones.insert(at, color), q) is Some,
        has_liberty(pos.stones.insert(at, color), pos.size, q),
    ensures
        play(pos, at, color) matches Ok(next) ==> stone_at(next.stones, q) == stone_at(
            pos.stones.insert(at, color),
            q,
        ),
{
    let size = pos.size;
    let placed = pos.stones.insert(at, color);
    let dead = captured(placed, size, at, color);
    if dead.contains(q) {
        let n = choose|n: Point|
            {
                &&& adjacent(at, n)
                &&& on_board(size, n)
                &&& stone_at(placed, n) == Some(color.spec_opponent())
                &&& #[trigger] connected(placed, size, n, q)
                &&& !has_liberty(placed, size, n)
            };
        lemma_liberties_shared(placed, size, n, q);
    }
}

/// A stone played on an empty point whose neighbours all hold opposing
/// stones, and which captures nothing, is refused as suicide.
pub proof fn lemma_surrounded_is_suicide(pos: Position, at: Point, color: StoneColor)
    requires
        on_board(pos.size, at),
        stone_at(pos.stones, at) is None,
        forall|n: Point|
            on_board(pos.size, n) && #[trigger] adjacent(at, n) ==> stone_at(pos.stones, n) == Some(
                color.spec_opponent(),
            ),
        captured(pos.stones.insert(at, color), pos.size, at, color) =~= Set::empty(),
    ensures
        play(pos, at, color) == Err::<Position, SgfError>(SgfError::Suicide),
{
    let size = pos.size;
    let placed = pos.stones.insert(at, color);
    let alone = set![at];
    assert(is_closed(placed, size, alone)) by {
        assert forall|p: Point, q: Point|
            #![trigger alone.contains(p), adjacent(p, q)]
            alone.contains(p) && adjacent(p, q) && on_board(size, q) && stone_at(placed, q)
                == stone_at(placed, p) implies alone.contains(q) by {}
    }
    if has_liberty(placed, size, at) {
        let l = choose|l: Point| #[trigger] is_liberty(placed, size, at, l);
        let r = choose|r: Point| #[trigger] connected(placed, size, at, r) && adjacent(r, l);
        lemma_group_least(placed, size, at, alone, r);
    }
}

/// After a move that captured exactly one stone, the opponent's immediate
/// retaking of that point is refused as a ko violation whenever it would
/// itself capture exactly one stone.
pub proof fn lemma_ko_bars_retaking(
    before: Position,
    at: Point,
    color: StoneColor,
    after: Position,
)
    requires
        play(before, at, color) == Ok::<Position, SgfError>(after),
        captured(before.stones.insert(at, color), before.size, at, color).len() == 1,
        captured(
            after.stones.insert(
                captured(before.stones.insert(at, color), before.size, at, color).choose(),
                color.spec_opponent(),
            ),
            after.size,
            captured(before.stones.insert(at, color), before.size, at, color).choose(),
            color.spec_opponent(),
        ).len() == 1,
    ensures
        play(
            after,
            captured(before.stones.insert(at, color), before.size, at, color).choose(),
            color.spec_opponent(),
        ) == Err::<Position, SgfError>(SgfError::KoViolation),
{
    let size = before.size;
    let placed = before.stones.insert(at, color);
    let dead = captured(placed, size, at, color);
    let p = dead.choose();
    lemma_captured_finite(placed, size, at, color);
    vstd::set::axiom_set_choose_len(dead);
    lemma_captured_finite(
        after.stones.insert(p, color.spec_opponent()),
        size,
        p,
        color.spec_opponent(),
    );
}

/// Once another move has been played elsewhere, the point is barred no
/// longer: a move there that captures something is accepted.
pub proof fn lemma_ko_lapses(
    before: Position,
    elsewhere: Point,
    mover: StoneColor,
    after: Position,
    at: Point,
    color: StoneColor,
)
    requires
        play(before, elsewhere, mover) == Ok::<Position, SgfError>(after),
        elsewhere != at,
        on_board(before.size, at),
        stone_at(before.stones, at) is None,
        captured(after.stones.insert(at, color), after.size, at, color).len() > 0,
    ensures
        play(after, at, color) is Ok,
{
    let size = before.size;
    let placed = before.stones.insert(elsewhere, mover);
    let dead = captured(placed, size, elsewhere, mover);
    lemma_captured_finite(placed, size, elsewhere, mover);
    if dead.len() == 1 {
        vstd::set::axiom_set_choose_len(dead);
        let p = dead.choose();
        let n = choose|n: Point|
            {
                &&& adjacent(elsewhere, n)
                &&& on_board(size, n)
                &&& stone_at(placed, n) == Some(mover.spec_opponent())
                &&& #[trigger] connected(placed, size, n, p)
                &&& !has_liberty(placed, size, n)
            };
        lemma_connected_same(placed, size, n, p);
    }
}

/// Every stone of the position belongs to a group with a liberty.
pub open spec fn all_alive(pos: Position) -> bool {
    forall|q: Point| #[trigger]
        pos.stones.dom().contains(q) ==> has_liberty(pos.stones, pos.size, q)
}

/// The stones that a move captures are stones of the opponent.
pub proof fn lemma_captured_are_rivals(stones: Stones, size: int, at: Point, color: StoneColor)
    ensures
        forall|q: Point| #[trigger]
            captured(stones, size, at, color).contains(q) ==> stone_at(stones, q) == Some(
                color.spec_opponent(),
            ),
{
    assert forall|q: Point| #[trigger]
        captured(stones, size, at, color).contains(q) implies stone_at(stones, q) == Some(
        color.spec_opponent(),
    ) by {
        let n = choose|n: Point|
            {
                &&& adjacent(at, n)
                &&& on_board(size, n)
                &&& stone_at(stones, n) == Some(color.spec_opponent())
                &&& #[trigger] connected(stones, size, n, q)
                &&& !has_liberty(stones, size, n)
            };
        lemma_connected_same(stones, size, n, q);
    }
}

/// A chain of stones stays a chain on a board that holds the same on all
/// its points.
proof fn lemma_chain_carries(from: Stones, to: Stones, size: int, p: Point, r: Point)
    requires
        connected(from, size, p, r),
        forall|q: Point|
            stone_at(from, q) == stone_at(from, p) ==> #[trigger] stone_at(to, q) == stone_at(
                from,
                q,
            ),
    ensures
        connected(to, size, p, r),
{
    let path = choose|path: Seq<Point>| #[trigger]
        is_chain(from, size, path) && path[0] == p && path.last() == r;
    assert forall|i: int| 0 <= i < path.len() implies on_board(size, #[trigger] path[i])
        && stone_at(to, path[i]) == stone_at(to, path[0]) by {
        assert(stone_at(from, path[i]) == stone_at(from, path[0]));
        assert(stone_at(to, path[i]) == stone_at(from, path[i]));
        assert(stone_at(to, path[0]) == stone_at(from, path[0]));
    }
    assert(is_chain(to, size, path) && path[0] == p && path.last() == r);
}

/// No move leaves a group without a liberty on the board: where every
/// stone belongs to a group with a liberty before a move that the rules
/// accept, every stone does so after it.
pub proof fn lemma_play_keeps_alive(pos: Position, at: Point, color: StoneColor)
    requires
        all_alive(pos),
        play(pos, at, color) is Ok,
    ensures
        all_alive(play(pos, at, color)->Ok_0),
{
    let size = pos.size;
    let rival = color.spec_opponent();
    let placed = pos.stones.insert(at, color);
    let dead = captured(placed, size, at, color);
    let next = placed.remove_keys(dead);
    lemma_captured_are_rivals(placed, size, at, color);
    lemma_captured_finite(placed, size, at, color);
    assert forall|q: Point| #[trigger] next.dom().contains(q) implies has_liberty(
        next,
        size,
        q,
    ) by {
        if stone_at(placed, q) == Some(color) {
            // a stone of the mover: its chains lose no stone
            if connected(placed, size, q, at) {
                lemma_connected_sym(placed, size, q, at);
                lemma_chain_carries(placed, next, size, at, q);
                lemma_connected_refl(next, size, at);
                if dead =~= Set::empty() {
                    assert(next =~= placed);
                } else {
                    let d = choose|d: Point| dead.contains(d);
                    let n = choose|n: Point|
                        {
                            &&& adjacent(at, n)
                            &&& on_board(size, n)
                            &&& stone_at(placed, n) == Some(rival)
                            &&& #[trigger] connected(placed, size, n, d)
                            &&& !has_liberty(placed, size, n)
                        };
                    lemma_connected_refl(placed, size, n);
                    assert(dead.contains(n));
                    assert(is_liberty(next, size, at, n));
                }
                lemma_liberties_shared(next, size, at, q);
            } else {
                assert(q != at) by {
                    if q == at {
                        lemma_connected_refl(placed, size, at);
                    }
                }
                let l = choose|l: Point| #[trigger] is_liberty(pos.stones, size, q, l);
                let r = choose|r: Point|
                    #[trigger] connected(pos.stones, size, q, r) && adjacent(r, l);
                lemma_chain_carries(pos.stones, placed, size, q, r);
                if l == at {
                    lemma_connected_same(placed, size, q, r);
                    lemma_connected_step(placed, size, q, r, at);
                }
                lemma_chain_carries(placed, next, size, q, r);
                assert(is_liberty(next, size, q, l));
            }
        } else {
            // a stone of the opponent that stays
            assert(stone_at(pos.stones, q) == Some(rival));
            lemma_placement_keeps_others(pos.stones, size, at, color, q);
            if !has_liberty(placed, size, q) {
                let l = choose|l: Point| #[trigger] is_liberty(pos.stones, size, q, l);
                assert(l == at);
                let r = choose|r: Point|
                    #[trigger] connected(pos.stones, size, q, r) && adjacent(r, at);
                assert(group(pos.stones, size, q).contains(r));
                assert(group(placed, size, q).contains(r));
                lemma_connected_same(placed, size, q, r);
                lemma_connected_sym(placed, size, q, r);
                lemma_liberties_shared(placed, size, q, r);
                assert(dead.contains(q));
            }
            assert forall|d: Point, e: Point|
                dead.contains(e) && #[trigger] connected(placed, size, d, e) implies dead.contains(
                d,
            ) by {
                let n = choose|n: Point|
                    {
                        &&& adjacent(at, n)
                        &&& on_board(size, n)
                        &&& stone_at(placed, n) == Some(rival)
                        &&& #[trigger] connected(placed, size, n, e)
                        &&& !has_liberty(placed, size, n)
                    };
                lemma_connected_sym(placed, size, d, e);
                lemma_connected_trans(placed, size, n, e, d);
            }
            crate::connectivity::lemma_removal_keeps_others(placed, size, rival, dead, q);
        }
    }
}

} // verus!
