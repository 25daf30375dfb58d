//! Facts about chains and groups that the board engine's proofs rest on.

use vstd::prelude::*;
use crate::color::StoneColor;
use crate::rules::{
    adjacent,
    connected,
    group,
    has_liberty,
    is_chain,
    is_liberty,
    liberties,
    on_board,
    stone_at,
    Point,
    Stones,
};

verus! {

/// A chain of `path` cut after its element `k` is a chain.
pub proof fn lemma_chain_prefix(stones: Stones, size: int, path: Seq<Point>, k: int)
    requires
        is_chain(stones, size, path),
        0 <= k < path.len(),
    ensures
        is_chain(stones, size, path.take(k + 1)),
        path.take(k + 1)[0] == path[0],
        path.take(k + 1).last() == path[k],
{
    let pre = path.take(k + 1);
    assert forall|i: int| 0 <= i < pre.len() implies on_board(size, #[trigger] pre[i]) && stone_at(
        stones,
        pre[i],
    ) == stone_at(stones, pre[0]) by {}
    assert forall|i: int| 0 < i < pre.len() implies adjacent(pre[i - 1], #[trigger] pre[i]) by {}
}

/// Every point of the board is connected to itself.
pub proof fn lemma_connected_refl(stones: Stones, size: int, p: Point)
    requires
        on_board(size, p),
    ensures
        connected(stones, size, p, p),
{
    let path = seq![p];
    assert(is_chain(stones, size, path) && path[0] == p && path.last() == p);
}

/// Connected points lie on the board and hold the same thing.
pub proof fn lemma_connected_same(stones: Stones, size: int, p: Point, q: Point)
    requires
        connected(stones, size, p, q),
    ensures
        on_board(size, p),
        on_board(size, q),
        stone_at(stones, q) == stone_at(stones, p),
{
}

/// A chain grows by a neighbouring point that holds the same thing.
pub proof fn lemma_connected_step(stones: Stones, size: int, p: Point, r: Point, q: Point)
    requires
        connected(stones, size, p, r),
        adjacent(r, q),
        on_board(size, q),
        stone_at(stones, q) == stone_at(stones, p),
    ensures
        connected(stones, size, p, q),
{
    let path = choose|path: Seq<Point>| #[trigger]
        is_chain(stones, size, path) && path[0] == p && path.last() == r;
    let longer = path.push(q);
    assert forall|i: int| 0 <= i < longer.len() implies on_board(size, #[trigger] longer[i])
        && stone_at(stones, longer[i]) == stone_at(stones, longer[0]) by {}
    assert forall|i: int| 0 < i < longer.len() implies adjacent(
        longer[i - 1],
        #[trigger] longer[i],
    ) by {}
    assert(is_chain(stones, size, longer) && longer[0] == p && longer.last() == q);
}

/// Being connected is symmetric.
pub proof fn lemma_connected_sym(stones: Stones, size: int, p: Point, q: Point)
    requires
        connected(stones, size, p, q),
    ensures
        connected(stones, size, q, p),
{
    let path = choose|path: Seq<Point>| #[trigger]
        is_chain(stones, size, path) && path[0] == p && path.last() == q;
    let n = path.len() as int;
    let back = Seq::new(path.len(), |i: int| path[n - 1 - i]);
    assert forall|i: int| 0 <= i < back.len() implies on_board(size, #[trigger] back[i])
        && stone_at(stones, back[i]) == stone_at(stones, back[0]) by {}
    assert forall|i: int| 0 < i < back.len() implies adjacent(back[i - 1], #[trigger] back[i]) by {}
    assert(is_chain(stones, size, back) && back[0] == q && back.last() == p);
}

/// Being connected is transitive.
pub proof fn lemma_connected_trans(stones: Stones, size: int, p: Point, q: Point, r: Point)
    requires
        connected(stones, size, p, q),
        connected(stones, size, q, r),
    ensures
        connected(stones, size, p, r),
{
    let a = choose|path: Seq<Point>| #[trigger]
        is_chain(stones, size, path) && path[0] == p && path.last() == q;
    let b = choose|path: Seq<Point>| #[trigger]
        is_chain(stones, size, path) && path[0] == q && path.last() == r;
    let joined = a + b.subrange(1, b.len() as int);
    assert forall|i: int| 0 <= i < joined.len() implies on_board(size, #[trigger] joined[i])
        && stone_at(stones, joined[i]) == stone_at(stones, joined[0]) by {}
    assert forall|i: int| 0 < i < joined.len() implies adjacent(
        joined[i - 1],
        #[trigger] joined[i],
    ) by {}
    assert(is_chain(stones, size, joined) && joined[0] == p && joined.last() == r);
}

/// A set is closed when it holds, with each of its points, every
/// neighbouring point of the board that holds the same thing.
pub open spec fn is_closed(stones: Stones, size: int, members: Set<Point>) -> bool {
    forall|p: Point, q: Point|
        #![trigger members.contains(p), adjacent(p, q)]
        members.contains(p) && adjacent(p, q) && on_board(size, q) && stone_at(stones, q)
            == stone_at(stones, p) ==> members.contains(q)
}

proof fn lemma_closed_holds_chain(
    stones: Stones,
    size: int,
    members: Set<Point>,
    path: Seq<Point>,
    k: int,
)
    requires
        is_closed(stones, size, members),
        is_chain(stones, size, path),
        members.contains(path[0]),
        0 <= k < path.len(),
    ensures
        members.contains(path[k]),
    decreases k,
{
    if k > 0 {
        lemma_closed_holds_chain(stones, size, members, path, k - 1);
    }
}

/// The group of a point is the least closed set that holds the point.
pub proof fn lemma_group_least(stones: Stones, size: int, p: Point, members: Set<Point>, q: Point)
    requires
        is_closed(stones, size, members),
        members.contains(p),
        connected(stones, size, p, q),
    ensures
        members.contains(q),
{
    let path = choose|path: Seq<Point>| #[trigger]
        is_chain(stones, size, path) && path[0] == p && path.last() == q;
    lemma_closed_holds_chain(stones, size, members, path, path.len() - 1);
}

/// Connected points have the same group.
pub proof fn lemma_group_shared(stones: Stones, size: int, p: Point, q: Point)
    requires
        connected(stones, size, p, q),
    ensures
        group(stones, size, p) == group(stones, size, q),
{
    lemma_connected_sym(stones, size, p, q);
    assert forall|r: Point| connected(stones, size, p, r) <==> connected(stones, size, q, r) by {
        if connected(stones, size, p, r) {
            lemma_connected_trans(stones, size, q, p, r);
        }
        if connected(stones, size, q, r) {
            lemma_connected_trans(stones, size, p, q, r);
        }
    }
}

/// Connected points have the same liberties.
pub proof fn lemma_liberties_shared(stones: Stones, size: int, p: Point, q: Point)
    requires
        connected(stones, size, p, q),
    ensures
        liberties(stones, size, p) == liberties(stones, size, q),
        has_liberty(stones, size, p) == has_liberty(stones, size, q),
{
    lemma_connected_sym(stones, size, p, q);
    lemma_connected_same(stones, size, p, q);
    assert forall|l: Point| is_liberty(stones, size, p, l) <==> is_liberty(stones, size, q, l) by {
        if is_liberty(stones, size, p, l) {
            let r = choose|r: Point| #[trigger] connected(stones, size, p, r) && adjacent(r, l);
            lemma_connected_trans(stones, size, q, p, r);
        }
        if is_liberty(stones, size, q, l) {
            let r = choose|r: Point| #[trigger] connected(stones, size, q, r) && adjacent(r, l);
            lemma_connected_trans(stones, size, p, q, r);
        }
    }
}

/// A set of stones of one colour that holds, with each of its points, the
/// whole group of that point.
pub open spec fn is_whole_groups(stones: Stones, size: int, color: StoneColor, dead: Set<Point>)
    -> bool {
    &&& forall|q: Point| dead.contains(q) ==> stone_at(stones, q) == Some(color)
    &&& forall|p: Point, q: Point|
        dead.contains(q) && #[trigger] connected(stones, size, p, q) ==> dead.contains(p)
}

/// Taking whole groups of one colour off the board changes neither the
/// group nor the liberties of a stone of that colour that stays.
pub proof fn lemma_removal_keeps_others(
    stones: Stones,
    size: int,
    color: StoneColor,
    dead: Set<Point>,
    a: Point,
)
    requires
        is_whole_groups(stones, size, color, dead),
        stone_at(stones, a) == Some(color),
        !dead.contains(a),
    ensures
        group(stones.remove_keys(dead), size, a) == group(stones, size, a),
        liberties(stones.remove_keys(dead), size, a) == liberties(stones, size, a),
        has_liberty(stones.remove_keys(dead), size, a) == has_liberty(stones, size, a),
{
    let rest = stones.remove_keys(dead);
    assert forall|q: Point| connected(rest, size, a, q) <==> connected(stones, size, a, q) by {
        if connected(rest, size, a, q) {
            let path = choose|path: Seq<Point>| #[trigger]
                is_chain(rest, size, path) && path[0] == a && path.last() == q;
            assert forall|i: int| 0 <= i < path.len() implies on_board(size, #[trigger] path[i])
                && stone_at(stones, path[i]) == stone_at(stones, path[0]) by {}
            assert(is_chain(stones, size, path) && path[0] == a && path.last() == q);
        }
        if connected(stones, size, a, q) {
            let path = choose|path: Seq<Point>| #[trigger]
                is_chain(stones, size, path) && path[0] == a && path.last() == q;
            assert forall|i: int| 0 <= i < path.len() implies on_board(size, #[trigger] path[i])
                && stone_at(rest, path[i]) == stone_at(rest, path[0]) by {
                lemma_chain_prefix(stones, size, path, i);
                assert(connected(stones, size, a, path[i]));
            }
            assert(is_chain(rest, size, path) && path[0] == a && path.last() == q);
        }
    }
    assert forall|l: Point| is_liberty(rest, size, a, l) <==> is_liberty(stones, size, a, l) by {
        if is_liberty(rest, size, a, l) {
            let r = choose|r: Point| #[trigger] connected(rest, size, a, r) && adjacent(r, l);
            lemma_connected_same(stones, size, a, r);
            if dead.contains(l) {
                lemma_connected_refl(stones, size, r);
                lemma_connected_step(stones, size, r, r, l);
            }
        }
    }
}

/// The group of a stone is a set of whole groups of its colour.
pub proof fn lemma_group_is_whole(stones: Stones, size: int, color: StoneColor, a: Point)
    requires
        stone_at(stones, a) == Some(color),
    ensures
        is_whole_groups(stones, size, color, group(stones, size, a)),
{
    let g = group(stones, size, a);
    assert forall|q: Point| g.contains(q) implies stone_at(stones, q) == Some(color) by {
        lemma_connected_same(stones, size, a, q);
    }
    assert forall|p: Point, q: Point| g.contains(q) && #[trigger] connected(
        stones,
        size,
        p,
        q,
    ) implies g.contains(p) by {
        lemma_connected_sym(stones, size, p, q);
        lemma_connected_trans(stones, size, a, q, p);
    }
}

} // verus!
