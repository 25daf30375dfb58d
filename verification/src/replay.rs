//! The position at a node of the record: what the moves on the way from the
//! root to the node leave on the board.

use std::sync::Arc;
use vstd::prelude::*;
use crate::board::Board;
use crate::color::StoneColor;
use crate::coords::{point_of, read_point};
use crate::laws::{all_alive, lemma_play_keeps_alive};
use crate::rules::{empty_position, play, Position};
use crate::text::text_eq;
use crate::tree::{
    first_property,
    has_property,
    property_views,
    with_property,
    NodeView,
    PropertyView,
    SgfProperty,
};

verus! {

/// The colour that a property plays for: black for `B`, white for `W`, and
/// none for every other identifier.
pub open spec fn move_color(identifier: Seq<char>) -> Option<StoneColor> {
    if identifier == seq!['B'] {
        Some(StoneColor::Black)
    } else if identifier == seq!['W'] {
        Some(StoneColor::White)
    } else {
        None
    }
}

/// The identifier of the property that records a move of the colour.
pub open spec fn move_identifier(color: StoneColor) -> Seq<char> {
    match color {
        StoneColor::Black => seq!['B'],
        StoneColor::White => seq!['W'],
    }
}

/// The position after one property. A move property whose first value names
/// a point plays there; where the rules refuse the move, and for every other
/// property, the position stays as it is.
pub open spec fn apply_property(pos: Position, property: PropertyView) -> Position {
    match move_color(property.identifier) {
        Some(color) => if property.values.len() > 0 {
            match point_of(property.values[0]) {
                Some(at) => match play(pos, at, color) {
                    Ok(next) => next,
                    Err(_) => pos,
                },
                None => pos,
            }
        } else {
            pos
        },
        None => pos,
    }
}

/// The position after the listed properties, taken in order.
pub open spec fn apply_properties(pos: Position, properties: Seq<PropertyView>) -> Position
    decreases properties.len(),
{
    if properties.len() == 0 {
        pos
    } else {
        apply_property(apply_properties(pos, properties.drop_last()), properties.last())
    }
}

/// The position at a node: the empty board, then the properties of every
/// node on the way from the root to the node, the node's own last.
pub open spec fn position_at(t: Seq<NodeView>, c: int, size: int) -> Position
    decreases c,
{
    let before = if 0 < c < t.len() && t[c].parent is Some && 0 <= t[c].parent->0 < c {
        position_at(t, t[c].parent->0, size)
    } else {
        empty_position(size)
    };
    apply_properties(before, t[c].properties)
}

/// The identifier that records a colour's move plays for that colour.
pub proof fn lemma_move_identifier(color: StoneColor)
    ensures
        move_color(move_identifier(color)) == Some(color),
{
    assert(seq!['W'][0] != seq!['B'][0]);
}

/// Properties that play no move leave the position as it is.
pub proof fn lemma_apply_without_moves(pos: Position, properties: Seq<PropertyView>)
    requires
        forall|i: int|
            0 <= i < properties.len() ==> move_color((#[trigger] properties[i]).identifier)
                is None,
    ensures
        apply_properties(pos, properties) == pos,
    decreases properties.len(),
{
    if properties.len() > 0 {
        lemma_apply_without_moves(pos, properties.drop_last());
    }
}

/// Two lists of properties that play the same moves in the same places lead
/// to the same position.
pub proof fn lemma_apply_same_moves(pos: Position, a: Seq<PropertyView>, b: Seq<PropertyView>)
    requires
        a.len() == b.len(),
        forall|i: int|
            0 <= i < a.len() ==> a[i] == b[i] || (move_color((#[trigger] a[i]).identifier) is None
                && move_color(b[i].identifier) is None),
    ensures
        apply_properties(pos, a) == apply_properties(pos, b),
    decreases a.len(),
{
    if a.len() > 0 {
        lemma_apply_same_moves(pos, a.drop_last(), b.drop_last());
    }
}

/// The position at a node depends only on the moves of the node and of the
/// nodes above it.
pub proof fn lemma_position_at_frame(t: Seq<NodeView>, u: Seq<NodeView>, c: int, size: int)
    requires
        0 <= c < t.len() <= u.len(),
        forall|i: int| 0 <= i <= c ==> (#[trigger] t[i]).parent == u[i].parent,
        forall|i: int, pos: Position|
            0 <= i <= c ==> #[trigger] apply_properties(pos, t[i].properties) == apply_properties(
                pos,
                u[i].properties,
            ),
    ensures
        position_at(t, c, size) == position_at(u, c, size),
    decreases c,
{
    if 0 < c && t[c].parent is Some && 0 <= t[c].parent->0 < c {
        lemma_position_at_frame(t, u, t[c].parent->0, size);
    }
}

/// Giving a property that plays no move a new value, or adding such a
/// property, changes no position.
pub proof fn lemma_with_property_keeps_moves(
    pos: Position,
    properties: Seq<PropertyView>,
    identifier: Seq<char>,
    value: Seq<char>,
)
    requires
        move_color(identifier) is None,
    ensures
        apply_properties(pos, with_property(properties, identifier, value)) == apply_properties(
            pos,
            properties,
        ),
{
    let fresh = PropertyView { identifier, values: seq![value] };
    if has_property(properties, identifier) {
        let i = first_property(properties, identifier);
        crate::tree::lemma_first_property(properties, identifier);
        lemma_apply_same_moves(pos, properties.update(i, fresh), properties);
    } else {
        assert(properties.push(fresh).drop_last() =~= properties);
    }
}

/// Moves that are replayed leave no group without a liberty.
pub proof fn lemma_apply_keeps_alive(pos: Position, properties: Seq<PropertyView>)
    requires
        all_alive(pos),
    ensures
        all_alive(apply_properties(pos, properties)),
    decreases properties.len(),
{
    if properties.len() > 0 {
        lemma_apply_keeps_alive(pos, properties.drop_last());
        let before = apply_properties(pos, properties.drop_last());
        let property = properties.last();
        if move_color(property.identifier) is Some && property.values.len() > 0 && point_of(
            property.values[0],
        ) is Some {
            let color = move_color(property.identifier)->0;
            let at = point_of(property.values[0])->0;
            if play(before, at, color) is Ok {
                lemma_play_keeps_alive(before, at, color);
            }
        }
    }
}

/// At every node of a record, every stone on the board belongs to a group
/// with a liberty.
pub proof fn lemma_position_is_alive(t: Seq<NodeView>, c: int, size: int)
    ensures
        all_alive(position_at(t, c, size)),
    decreases c,
{
    if 0 < c < t.len() && t[c].parent is Some && 0 <= t[c].parent->0 < c {
        lemma_position_is_alive(t, t[c].parent->0, size);
        lemma_apply_keeps_alive(position_at(t, t[c].parent->0, size), t[c].properties);
    } else {
        lemma_apply_keeps_alive(empty_position(size), t[c].properties);
    }
}

/// Tells which colour a property with this identifier plays for.
pub fn color_of(identifier: &str) -> (color: Option<StoneColor>)
    ensures
        color == move_color(identifier@),
{
    proof {
        reveal_strlit("B");
        reveal_strlit("W");
        assert("B"@ =~= seq!['B']);
        assert("W"@ =~= seq!['W']);
    }
    if text_eq(identifier, "B") {
        Some(StoneColor::Black)
    } else if text_eq(identifier, "W") {
        Some(StoneColor::White)
    } else {
        None
    }
}

/// Plays the moves among the listed properties, in order, and skips those
/// that the rules refuse. Returns the board after the last of them.
pub fn replay_properties(board: Arc<Board>, properties: &Vec<SgfProperty>) -> (after: Arc<Board>)
    ensures
        after@ == apply_properties(board@, property_views(properties@)),
{
    let ghost start = board@;
    let ghost views = property_views(properties@);
    let mut board = board;
    let mut i: usize = 0;
    while i < properties.len()
        invariant
            i <= properties.len(),
            views == property_views(properties@),
            board@ == apply_properties(start, views.take(i as int)),
        decreases properties.len() - i,
    {
        let property = &properties[i];
        proof {
            assert(views.take(i + 1).drop_last() =~= views.take(i as int));
        }
        match color_of(property.identifier.as_str()) {
            Some(color) => {
                if property.values.len() > 0 {
                    match read_point(property.values[0].as_str()) {
                        Some(c) => {
                            match board.place_stone(c.0, c.1, color) {
                                Ok(next) => {
                                    board = next;
                                },
                                Err(_) => {},
                            }
                        },
                        None => {},
                    }
                }
            },
            None => {},
        }
        i = i + 1;
    }
    proof {
        assert(views.take(properties.len() as int) =~= views);
    }
    board
}

} // verus!
