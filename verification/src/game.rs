//! The game session: one record, the node the session stands on, and the
//! positions already derived along the way.

use std::collections::HashMap;
use std::sync::Arc;
use vstd::prelude::*;
use vstd::string::StringExecFns;
use crate::board::Board;
use crate::color::StoneColor;
use crate::coords::{point_text, sgf_to_gtp, write_point, engine_vertex, MAX_GAME_SIZE};
use crate::error::SgfError;
use crate::metadata::{
    lemma_fields_play_no_move,
    metadata_of,
    read_metadata,
    with_metadata,
    GameMetadata,
};
use crate::replay::{
    apply_properties,
    color_of,
    lemma_position_at_frame,
    lemma_with_property_keeps_moves,
    move_color,
    move_identifier,
    position_at,
    replay_properties,
};
use crate::sgf::{
    candidate,
    cleaned,
    first_accepted,
    holds,
    parse_sgf,
    parser_refusal,
    parser_trees,
    raw_properties,
    record_text,
    same_node,
    write_record,
    RawNode,
};
use crate::rules::{empty_position, play, Position};
use crate::text::{decimal, decimal_text, number_of, parse_number, text_eq};
use crate::tree::{
    ancestors,
    depth,
    find_node_at_depth,
    find_path,
    first_at,
    get_max_depth,
    height,
    ints,
    is_node_of,
    lemma_ancestors_of_child,
    lemma_ancestors_prefix,
    lemma_root_above_all,
    property_views,
    texts,
    tree_wf,
    with_child,
    with_property,
    NodeView,
    PropertyView,
    SgfNode,
    SgfProperty,
    SgfTree,
};

verus! {

/// The model of a session.
pub struct GameView {
    /// The record.
    pub tree: Seq<NodeView>,
    /// The node the session stands on.
    pub current: int,
    /// The nodes on the way from the root to the current node's parent.
    pub history: Seq<int>,
    /// The positions derived so far, by node.
    pub cached: Map<int, Position>,
    /// The side length of the board.
    pub size: int,
}

/// A game being played or studied.
pub struct Game {
    tree: SgfTree,
    current_node: usize,
    history: Vec<usize>,
    board_cache: HashMap<usize, Arc<Board>>,
    size: u32,
}

/// The session is sound: its record is a tree, it stands on a node of it
/// with the node's ancestors as its history, and every position it keeps is
/// the position at its node. The root's position is always kept.
pub open spec fn game_wf(g: GameView) -> bool {
    &&& tree_wf(g.tree)
    &&& 0 <= g.current < g.tree.len()
    &&& g.history == ancestors(g.tree, g.current)
    &&& 0 <= g.size <= MAX_GAME_SIZE
    &&& g.cached.dom().contains(0)
    &&& forall|id: int| #[trigger]
        g.cached.dom().contains(id) ==> 0 <= id < g.tree.len() && g.cached[id] == position_at(
            g.tree,
            id,
            g.size,
        )
}

/// A number as the 32-bit count that stands for it: itself, or the largest
/// such count where it is larger.
pub open spec fn clamped(n: int) -> u32 {
    if n > u32::MAX {
        u32::MAX
    } else {
        n as u32
    }
}

/// The node records a move with this identifier at this point, in any of
/// the values of one of its properties.
pub open spec fn records_move(node: NodeView, identifier: Seq<char>, coords: Seq<char>) -> bool {
    exists|i: int|
        0 <= i < node.properties.len() && (#[trigger] node.properties[i]).identifier == identifier
            && node.properties[i].values.contains(coords)
}

/// The place among the children of `parent` of the first child that records
/// the move, if any does.
pub open spec fn recorded_child(
    t: Seq<NodeView>,
    parent: int,
    identifier: Seq<char>,
    coords: Seq<char>,
) -> Option<int> {
    if exists|k: int|
        0 <= k < t[parent].children.len() && #[trigger] records_move(
            t[t[parent].children[k]],
            identifier,
            coords,
        ) {
        Some(
            choose|k: int|
                0 <= k < t[parent].children.len() && #[trigger] records_move(
                    t[t[parent].children[k]],
                    identifier,
                    coords,
                ) && forall|j: int|
                    0 <= j < k ==> !#[trigger] records_move(
                        t[t[parent].children[j]],
                        identifier,
                        coords,
                    ),
        )
    } else {
        None
    }
}

/// The colour to play after a node with these properties: the opponent of
/// the colour of its first move property, and black where it has none.
pub open spec fn next_color(properties: Seq<PropertyView>) -> StoneColor
    decreases properties.len(),
{
    if properties.len() == 0 {
        StoneColor::Black
    } else {
        match move_color(properties[0].identifier) {
            Some(color) => color.spec_opponent(),
            None => next_color(properties.drop_first()),
        }
    }
}

/// The first move property among these, if there is one.
pub open spec fn first_move(properties: Seq<PropertyView>) -> Option<PropertyView>
    decreases properties.len(),
{
    if properties.len() == 0 {
        None
    } else if move_color(properties[0].identifier) is Some {
        Some(properties[0])
    } else {
        first_move(properties.drop_first())
    }
}

/// The first move property of each of the listed nodes that has one, in the
/// order of the nodes.
pub open spec fn path_moves(t: Seq<NodeView>, path: Seq<int>) -> Seq<PropertyView>
    decreases path.len(),
{
    if path.len() == 0 {
        Seq::empty()
    } else {
        let before = path_moves(t, path.drop_last());
        match first_move(t[path.last()].properties) {
            Some(property) => before.push(property),
            None => before,
        }
    }
}

/// The moves among these properties as an engine reads them: for each move
/// property with a value, its identifier and the vertex of its first value.
pub open spec fn engine_moves(properties: Seq<PropertyView>, size: int) -> Seq<Seq<Seq<char>>>
    decreases properties.len(),
{
    if properties.len() == 0 {
        Seq::empty()
    } else {
        let before = engine_moves(properties.drop_last(), size);
        let last = properties.last();
        if move_color(last.identifier) is Some && last.values.len() > 0 {
            before.push(seq![last.identifier, engine_vertex(last.values[0], size)])
        } else {
            before
        }
    }
}

/// The moves of the listed nodes as an engine reads them, in the order of
/// the nodes.
pub open spec fn path_engine_moves(t: Seq<NodeView>, path: Seq<int>, size: int) -> Seq<
    Seq<Seq<char>>,
>
    decreases path.len(),
{
    if path.len() == 0 {
        Seq::empty()
    } else {
        path_engine_moves(t, path.drop_last(), size) + engine_moves(
            t[path.last()].properties,
            size,
        )
    }
}

/// The side length that the root declares: the number that the first value
/// of its first `SZ` property writes, and 19 where there is none.
pub open spec fn declared_size(properties: Seq<PropertyView>) -> u32
    decreases properties.len(),
{
    if properties.len() == 0 {
        19
    } else if properties[0].identifier == seq!['S', 'Z'] {
        if properties[0].values.len() > 0 {
            match number_of(properties[0].values[0]) {
                Some(n) => n,
                None => 19,
            }
        } else {
            19
        }
    } else {
        declared_size(properties.drop_first())
    }
}

/// The session that has just opened a record: it stands on the root and
/// keeps the root's position.
pub open spec fn opened(tree: Seq<NodeView>, size: int) -> GameView {
    GameView {
        tree,
        current: 0,
        history: Seq::empty(),
        cached: Map::empty().insert(0int, position_at(tree, 0, size)),
        size,
    }
}

/// Where the root records no move, the position at the root is the empty
/// board.
pub proof fn lemma_root_position(t: Seq<NodeView>, size: int)
    requires
        t.len() > 0,
        forall|i: int|
            0 <= i < t[0].properties.len() ==> move_color(
                (#[trigger] t[0].properties[i]).identifier,
            ) is None,
    ensures
        position_at(t, 0, size) == empty_position(size),
{
    crate::replay::lemma_apply_without_moves(empty_position(size), t[0].properties);
}

/// What opening a session on a parsed tree gives: a session on the record
/// that holds the tree, standing on its root, on a board of the side length
/// that the tree's root declares; or, where no board of a session can have
/// that side length, the error that says so.
pub open spec fn opened_on(res: Result<Game, SgfError>, raw: RawNode) -> bool {
    let size = declared_size(raw_properties(raw.properties@));
    match res {
        Ok(game) => size <= MAX_GAME_SIZE && game.wf() && holds(game@.tree, raw) && game@
            == opened(game@.tree, size as int),
        Err(error) => size > MAX_GAME_SIZE && (error matches SgfError::ParseError { message }
            && message@ == "Board size out of range"@),
    }
}

/// The session after a step from the current node to one of its children.
pub open spec fn entered(g: GameView, child: int) -> GameView {
    GameView { current: child, history: g.history.push(g.current), ..g }
}

/// The nodes on the way from the root to the current node, the current
/// node last.
pub open spec fn way(g: GameView) -> Seq<int> {
    g.history.push(g.current)
}

/// The positions that the session keeps once the position at the current
/// node was asked for: the same where that position was kept already, and
/// otherwise also the position at every node on the way from the root.
pub open spec fn derived(g: GameView) -> Map<int, Position> {
    if g.cached.dom().contains(g.current) {
        g.cached
    } else {
        Map::new(
            |id: int| g.cached.dom().contains(id) || way(g).contains(id),
            |id: int| position_at(g.tree, id, g.size),
        )
    }
}

/// Asking for the position a second time changes nothing: the positions
/// kept after the first time are those kept after the second.
pub proof fn lemma_derived_once(g: GameView)
    ensures
        derived(GameView { cached: derived(g), ..g }) == derived(g),
{
    assert(way(g).last() == g.current);
}

/// The session with other properties at the root of its record.
pub open spec fn with_root_properties(g: GameView, properties: Seq<PropertyView>) -> GameView {
    GameView {
        tree: g.tree.update(0, NodeView { properties, ..g.tree[0] }),
        ..g
    }
}

/// Changing the properties of the root twice leaves the second change.
pub proof fn lemma_root_properties_twice(
    g: GameView,
    first: Seq<PropertyView>,
    second: Seq<PropertyView>,
)
    requires
        g.tree.len() > 0,
    ensures
        with_root_properties(with_root_properties(g, first), second) == with_root_properties(
            g,
            second,
        ),
        with_root_properties(g, first).tree[0].properties == first,
{
    assert(with_root_properties(with_root_properties(g, first), second).tree
        =~= with_root_properties(g, second).tree);
}

/// The positions in a cache, by node.
pub open spec fn cache_view(cache: Map<usize, Arc<Board>>) -> Map<int, Position> {
    Map::new(
        |id: int| 0 <= id <= usize::MAX && cache.dom().contains(id as usize),
        |id: int| cache[id as usize]@,
    )
}

proof fn lemma_cache_insert(cache: Map<usize, Arc<Board>>, id: usize, board: Arc<Board>)
    ensures
        cache_view(cache.insert(id, board)) == cache_view(cache).insert(id as int, board@),
{
}

/// Going back `steps` times from a node: the node's parent, its parent's
/// parent, and so on. The root stays the root.
pub open spec fn back(t: Seq<NodeView>, c: int, steps: nat) -> int
    decreases steps,
{
    if steps == 0 {
        c
    } else if 0 < c < t.len() && t[c].parent is Some {
        back(t, t[c].parent->0, (steps - 1) as nat)
    } else {
        c
    }
}

/// Going back from a node as many times as moves lead to it ends at the
/// root, and no fewer steps do: the root is the only node from which there
/// is no going back.
pub proof fn lemma_back_to_root(t: Seq<NodeView>, c: int, steps: nat)
    requires
        tree_wf(t),
        0 <= c < t.len(),
        steps <= depth(t, c),
    ensures
        back(t, c, steps) == 0 <==> steps == depth(t, c),
        depth(t, c) == 0 <==> c == 0,
        back(t, c, steps) == if steps == 0 {
            c
        } else {
            ancestors(t, c)[depth(t, c) - steps]
        },
    decreases steps,
{
    if steps > 0 {
        let p = t[c].parent->0;
        assert(ancestors(t, c) == ancestors(t, p).push(p));
        lemma_back_to_root(t, p, (steps - 1) as nat);
        if steps > 1 {
            assert(ancestors(t, c)[depth(t, c) - steps] == ancestors(t, p)[depth(t, p) - (steps
                - 1)]);
        }
    }
}

/// `Arc::clone` of the standard library gives another handle to the same
/// board.
#[verifier::external_body]
fn share(board: &Arc<Board>) -> (same: Arc<Board>)
    ensures
        same == *board,
{
    Arc::clone(board)
}

/// Returns a count as a 32-bit number, the largest one where it does not
/// fit.
fn clamp(n: usize) -> (count: u32)
    ensures
        count == clamped(n as int),
{
    if n > 0xFFFF_FFFF {
        0xFFFF_FFFF
    } else {
        n as u32
    }
}

/// Tells whether a property records a move with this identifier at this
/// point.
fn property_records(property: &SgfProperty, identifier: &str, coords: &str) -> (found: bool)
    ensures
        found == (property@.identifier == identifier@ && property@.values.contains(coords@)),
{
    if !text_eq(property.identifier.as_str(), identifier) {
        return false;
    }
    let mut i: usize = 0;
    while i < property.values.len()
        invariant
            i <= property.values.len(),
            property@.identifier == identifier@,
            forall|j: int| 0 <= j < i ==> property@.values[j] != coords@,
        decreases property.values.len() - i,
    {
        assert(property@.values[i as int] == property.values@[i as int]@);
        if text_eq(property.values[i].as_str(), coords) {
            assert(property@.values.contains(coords@));
            return true;
        }
        i = i + 1;
    }
    false
}

/// Tells whether a node records a move with this identifier at this point.
fn node_records(node: &SgfNode, identifier: &str, coords: &str) -> (found: bool)
    ensures
        found == records_move(node@, identifier@, coords@),
{
    let mut i: usize = 0;
    while i < node.properties.len()
        invariant
            i <= node.properties.len(),
            forall|j: int|
                0 <= j < i ==> !((#[trigger] node@.properties[j]).identifier == identifier@
                    && node@.properties[j].values.contains(coords@)),
        decreases node.properties.len() - i,
    {
        assert(node@.properties[i as int] == node.properties@[i as int]@);
        if property_records(&node.properties[i], identifier, coords) {
            return true;
        }
        i = i + 1;
    }
    false
}

impl View for Game {
    type V = GameView;

    closed spec fn view(&self) -> GameView {
        GameView {
            tree: self.tree@,
            current: self.current_node as int,
            history: ints(self.history@),
            cached: cache_view(self.board_cache@),
            size: self.size as int,
        }
    }
}

impl Game {
    /// The session is sound.
    pub open spec fn wf(&self) -> bool {
        game_wf(self@)
    }

    /// Opens a session on a record. The board has the side length that the
    /// root declares; a record that declares a side length no board of a
    /// session can have is refused.
    pub fn from_tree(tree: SgfTree) -> (res: Result<Game, SgfError>)
        requires
            tree.wf(),
        ensures
            match res {
                Ok(game) => game.wf() && declared_size(tree@[0].properties) <= MAX_GAME_SIZE
                    && game@ == opened(tree@, declared_size(tree@[0].properties) as int),
                Err(error) => declared_size(tree@[0].properties) > MAX_GAME_SIZE && (
                error matches SgfError::ParseError { message } && message@
                    == "Board size out of range"@),
            },
    {
        let size = read_size(&tree.root().properties);
        if size > MAX_GAME_SIZE {
            return Err(
                SgfError::ParseError { message: String::from_str("Board size out of range") },
            );
        }
        let board = replay_properties(Board::new(size), &tree.root().properties);
        let mut board_cache: HashMap<usize, Arc<Board>> = HashMap::new();
        board_cache.insert(0, board);
        let game = Game { tree, current_node: 0, history: Vec::new(), board_cache, size };
        proof {
            assert(game@.history =~= Seq::empty());
            assert(game@.cached =~= Map::empty().insert(0int, position_at(tree@, 0, size as int)));
        }
        Ok(game)
    }

    /// Starts a new game on an empty board of the given side length. The
    /// record has one node, the root, which declares the side length.
    pub fn new(size: u32) -> (game: Game)
        requires
            size <= MAX_GAME_SIZE,
        ensures
            game.wf(),
            game@.tree.len() == 1,
            game@.tree[0].properties == seq![
                PropertyView { identifier: seq!['S', 'Z'], values: seq![decimal(size as nat)] },
            ],
            game@ == opened(game@.tree, size as int),
            position_at(game@.tree, 0, size as int) == empty_position(size as int),
    {
        proof {
            reveal_strlit("SZ");
            assert("SZ"@ =~= seq!['S', 'Z']);
        }
        let mut values: Vec<String> = Vec::new();
        values.push(decimal_text(size as u64));
        let mut properties: Vec<SgfProperty> = Vec::new();
        properties.push(SgfProperty { identifier: String::from_str("SZ"), values });
        proof {
            assert(texts(values@) =~= seq![decimal(size as nat)]);
        }
        let tree = SgfTree::new(properties);
        let mut board_cache: HashMap<usize, Arc<Board>> = HashMap::new();
        board_cache.insert(0, Board::new(size));
        let game = Game { tree, current_node: 0, history: Vec::new(), board_cache, size };
        proof {
            let props = game@.tree[0].properties;
            assert(move_color(props[0].identifier) is None);
            crate::replay::lemma_apply_without_moves(empty_position(size as int), props);
            assert(game@.history =~= Seq::empty());
            assert(game@.cached =~= Map::empty().insert(
                0int,
                position_at(game@.tree, 0, size as int),
            ));
        }
        game
    }

    /// Reads a record from its text and opens a session on it.
    ///
    /// An empty text, and a text that the parser refuses with all its
    /// repairs, is refused as it is by [`parse_sgf`]. For any other text the
    /// session is opened on the record of the first tree of the first
    /// candidate that the parser accepts, and refused only where that tree
    /// declares a side length that no board of a session can have.
    pub fn from_sgf(sgf_content: String) -> (res: Result<Game, SgfError>)
        ensures
            cleaned(sgf_content@).len() == 0 ==> (res matches Err(
                SgfError::ParseError { message },
            ) && message@ == "Empty SGF content"@),
            cleaned(sgf_content@).len() > 0 ==> match first_accepted(cleaned(sgf_content@)) {
                Some(n) => exists|raw: RawNode| #[trigger]
                    opened_on(res, raw) && same_node(
                        raw,
                        parser_trees(candidate(cleaned(sgf_content@), n))[0],
                    ),
                None => res matches Err(SgfError::ParseError { message }) && message@
                    == parser_refusal(cleaned(sgf_content@)),
            },
    {
        let ghost text = cleaned(sgf_content@);
        match parse_sgf(sgf_content) {
            Ok(tree) => {
                let ghost n = first_accepted(text)->0;
                let ghost raw = choose|raw: RawNode| #[trigger]
                    holds(tree@, raw) && same_node(raw, parser_trees(candidate(text, n))[0]);
                let res = Game::from_tree(tree);
                assert(opened_on(res, raw));
                res
            },
            Err(error) => Err(error),
        }
    }

    /// Returns the descriptive fields of the game, read from the root of
    /// the record.
    pub fn get_metadata(&self) -> (meta: GameMetadata)
        requires
            self.wf(),
        ensures
            meta@ == metadata_of(self@.tree[0].properties, self@.size),
    {
        read_metadata(&self.tree.root().properties, self.size)
    }

    /// Gives a property of the root that records no move a single value,
    /// in a session that differs from `g` in the properties of the root
    /// alone.
    fn set_root_property(&mut self, Ghost(g): Ghost<GameView>, identifier: &str, value: String)
        requires
            old(self).wf(),
            move_color(identifier@) is None,
            g.tree.len() > 0,
            old(self)@ == with_root_properties(g, old(self)@.tree[0].properties),
        ensures
            final(self).wf(),
            final(self)@.tree[0].properties == with_property(
                old(self)@.tree[0].properties,
                identifier@,
                value@,
            ),
            final(self)@ == with_root_properties(g, final(self)@.tree[0].properties),
    {
        let ghost t = self@.tree;
        let ghost size = self@.size;
        self.tree.set_property(0, identifier, value);
        proof {
            let u = self@.tree;
            assert(u =~= t.update(
                0,
                NodeView {
                    properties: with_property(t[0].properties, identifier@, value@),
                    ..t[0]
                },
            ));
            lemma_ancestors_kept(t, u, self@.current);
            assert forall|i: int, pos: Position|
                0 <= i < t.len() implies #[trigger] apply_properties(
                pos,
                t[i].properties,
            ) == apply_properties(pos, u[i].properties) by {
                if i == 0 {
                    lemma_with_property_keeps_moves(pos, t[0].properties, identifier@, value@);
                }
            }
            assert forall|id: int| #[trigger] self@.cached.dom().contains(id) implies 0 <= id
                < u.len() && self@.cached[id] == position_at(u, id, size) by {
                lemma_position_at_frame(t, u, id, size);
            }
            lemma_root_properties_twice(g, t[0].properties, u[0].properties);
        }
    }

    /// Writes the descriptive fields into the root of the record: each as
    /// the single value of its property. The board of the session keeps its
    /// side length.
    pub fn set_metadata(&mut self, metadata: GameMetadata)
        requires
            old(self).wf(),
        ensures
            final(self).wf(),
            final(self)@ == with_root_properties(
                old(self)@,
                with_metadata(old(self)@.tree[0].properties, metadata@),
            ),
    {
        let g = Ghost(self@);
        proof {
            lemma_fields_play_no_move();
            assert(self@.tree =~= with_root_properties(self@, self@.tree[0].properties).tree);
        }
        let size_text = decimal_text(metadata.size as u64);
        self.set_root_property(g, "PB", metadata.black_name);
        self.set_root_property(g, "BR", metadata.black_rank);
        self.set_root_property(g, "PW", metadata.white_name);
        self.set_root_property(g, "WR", metadata.white_rank);
        self.set_root_property(g, "KM", metadata.komi);
        self.set_root_property(g, "RE", metadata.result);
        self.set_root_property(g, "DT", metadata.date);
        self.set_root_property(g, "EV", metadata.event);
        self.set_root_property(g, "GN", metadata.game_name);
        self.set_root_property(g, "PC", metadata.place);
        self.set_root_property(g, "SZ", size_text);
    }

    /// Returns the record as text.
    pub fn to_sgf(&self) -> (out: String)
        requires
            self.wf(),
        ensures
            out@ == record_text(self@.tree),
    {
        write_record(&self.tree)
    }

    /// Returns a copy of the node the session stands on.
    pub fn get_current_node(&self) -> (node: SgfNode)
        requires
            self.wf(),
        ensures
            node@ == self@.tree[self@.current],
    {
        self.tree.get(self.current_node).duplicate()
    }

    /// Returns a copy of the root node.
    pub fn get_root_node(&self) -> (node: SgfNode)
        requires
            self.wf(),
        ensures
            node@ == self@.tree[0],
    {
        self.tree.get(0).duplicate()
    }

    /// Returns a copy of the node with the given handle, if there is one.
    pub fn get_node(&self, id: usize) -> (node: Option<SgfNode>)
        ensures
            match node {
                Some(n) => id < self@.tree.len() && n@ == self@.tree[id as int],
                None => id >= self@.tree.len(),
            },
    {
        match self.tree.node(id) {
            Some(n) => Some(n.duplicate()),
            None => None,
        }
    }

    /// Returns the place of the current node among its parent's children,
    /// and 0 at the root.
    pub fn get_current_variation_index(&self) -> (index: u32)
        requires
            self.wf(),
        ensures
            self@.current == 0 ==> index == 0,
            self@.current != 0 ==> exists|k: int|
                0 <= k < self@.tree[self@.history.last()].children.len()
                    && self@.tree[self@.history.last()].children[k] == self@.current && index
                    == clamped(k),
    {
        proof {
            lemma_back_to_root(self@.tree, self@.current, 0);
        }
        if self.history.len() == 0 {
            return 0;
        }
        let parent = self.history[self.history.len() - 1];
        proof {
            let t = self@.tree;
            let c = self@.current;
            assert(ancestors(t, c) == ancestors(t, t[c].parent->0).push(t[c].parent->0));
            assert(ints(self.history@).last() == parent);
            assert(t[c].parent == Some(parent as int));
            assert(t[parent as int].children.contains(c));
        }
        let node = self.tree.get(parent);
        let mut i: usize = 0;
        while i < node.children.len()
            invariant
                i <= node.children.len(),
                self.wf(),
                self@.current != 0,
                self@.history.len() > 0,
                parent == self@.history.last(),
                parent < self@.tree.len(),
                node@ == self@.tree[parent as int],
                self@.tree[parent as int].children.contains(self@.current),
                self@.current == self.current_node,
                forall|j: int|
                    0 <= j < i ==> self@.tree[parent as int].children[j] != self@.current,
            decreases node.children.len() - i,
        {
            assert(node@.children[i as int] == node.children@[i as int]);
            if node.children[i] == self.current_node {
                assert(self@.tree[self@.history.last()].children[i as int] == self@.current);
                return clamp(i);
            }
            i = i + 1;
        }
        proof {
            let kids = self@.tree[parent as int].children;
            let k = choose|k: int| 0 <= k < kids.len() && kids[k] == self@.current;
            assert(kids[k] == self@.current);
        }
        0
    }

    /// Returns the number of variations at the current node: the number of
    /// its parent's children, and 1 at the root.
    pub fn get_variation_count(&self) -> (count: u32)
        requires
            self.wf(),
        ensures
            count == if self@.current == 0 {
                1
            } else {
                clamped(self@.tree[self@.history.last()].children.len() as int)
            },
    {
        proof {
            lemma_back_to_root(self@.tree, self@.current, 0);
        }
        if self.history.len() == 0 {
            return 1;
        }
        let parent = self.history[self.history.len() - 1];
        proof {
            assert(self@.history == ancestors(self@.tree, self@.current));
            assert(ints(self.history@).last() == parent);
        }
        clamp(self.tree.get(parent).children.len())
    }

    /// Moves to the given node, if it is a node of this record: a copy of
    /// one of its nodes. For a node of another record, whatever it holds,
    /// the session stays where it is.
    pub fn jump_to_node(&mut self, target: &SgfNode)
        requires
            old(self).wf(),
        ensures
            final(self).wf(),
            final(self)@ == if is_node_of(old(self)@.tree, target@) {
                GameView {
                    current: target@.id,
                    history: ancestors(old(self)@.tree, target@.id),
                    ..old(self)@
                }
            } else {
                old(self)@
            },
    {
        if target.record != self.tree.root().record {
            return ;
        }
        proof {
            if target.id < self@.tree.len() {
                lemma_root_above_all(self@.tree, target.id as int);
            }
        }
        match find_path(&self.tree, 0, target.id) {
            Some(path) => {
                proof {
                    assert(ancestors(self@.tree, 0) + ints(path@) =~= ints(path@));
                }
                self.history = path;
                self.current_node = target.id;
            },
            None => {},
        }
    }

    /// Moves to the first node that the given number of moves leads to, in
    /// the order of a depth-first walk of the record that takes the first
    /// child first. Where no node lies that deep the session stays where it
    /// is.
    pub fn jump_to_move_number(&mut self, target: u32)
        requires
            old(self).wf(),
        ensures
            final(self).wf(),
            final(self)@ == match first_at(old(self)@.tree, 0, target as nat) {
                Some(found) => GameView {
                    current: found,
                    history: ancestors(old(self)@.tree, found),
                    ..old(self)@
                },
                None => old(self)@,
            },
    {
        let start: Vec<usize> = Vec::new();
        proof {
            assert(ints(start@) =~= ancestors(self@.tree, 0));
        }
        match find_node_at_depth(&self.tree, 0, target, start) {
            Some(found) => {
                self.current_node = found.0;
                self.history = found.1;
            },
            None => {},
        }
    }

    /// Returns the position at the current node. A position that the
    /// session keeps is returned as it is; otherwise the moves on the way
    /// from the root are replayed, those that the rules refuse are skipped,
    /// and the positions met on the way are kept.
    pub fn get_board(&mut self) -> (board: Arc<Board>)
        requires
            old(self).wf(),
        ensures
            final(self).wf(),
            board@ == position_at(old(self)@.tree, old(self)@.current, old(self)@.size),
            final(self)@ == (GameView { cached: derived(old(self)@), ..old(self)@ }),
    {
        broadcast use vstd::std_specs::hash::group_hash_axioms;

        match self.board_cache.get(&self.current_node) {
            Some(kept) => {
                return share(kept);
            },
            None => {},
        }
        let ghost t = self@.tree;
        let ghost path = way(self@);
        let ghost size = self@.size;
        let ghost start = self@.cached;
        let steps = self.history.len();
        let total = self.tree.len();
        let mut board = Board::new(self.size);
        let mut i: usize = 0;
        proof {
            lemma_root_above_all(t, self@.current);
            crate::tree::lemma_depth_bound(t, self@.current);
            assert(self@.cached =~= Map::new(
                |id: int| start.dom().contains(id) || path.take(0).contains(id),
                |id: int| position_at(t, id, size),
            ));
        }
        while i <= steps
            invariant
                i <= steps + 1,
                steps < total,
                steps == self.history@.len(),
                self.wf(),
                self@.tree == t,
                self@.size == size,
                self@.current == old(self)@.current,
                self@.history == old(self)@.history,
                t == old(self)@.tree,
                size == old(self)@.size,
                start == old(self)@.cached,
                path == way(old(self)@),
                path[0] == 0,
                self@.cached == Map::new(
                    |id: int| start.dom().contains(id) || path.take(i as int).contains(id),
                    |id: int| position_at(t, id, size),
                ),
                i == 0 ==> board@ == empty_position(size),
                i > 0 ==> board@ == position_at(t, path[i - 1], size),
            decreases steps + 1 - i,
        {
            let node = if i < steps {
                self.history[i]
            } else {
                self.current_node
            };
            proof {
                assert(node == path[i as int]);
                if i > 0 {
                    if i < steps {
                        lemma_ancestors_prefix(t, self@.current, i as int);
                        assert(ancestors(t, node as int) == ancestors(t, self@.current).take(
                            i as int,
                        ));
                    }
                    let up = ancestors(t, node as int);
                    assert(up.len() == i);
                    assert(up.last() == path[i - 1]);
                    assert(up == ancestors(t, t[node as int].parent->0).push(
                        t[node as int].parent->0,
                    ));
                } else {
                    assert(node == 0);
                }
                if i < steps {
                    lemma_ancestors_prefix(t, self@.current, i as int);
                }
                assert forall|id: int| path.take(i + 1).contains(id) <==> path.take(
                    i as int,
                ).contains(id) || id == node by {
                    if path.take(i as int).contains(id) {
                        let j = choose|j: int|
                            0 <= j < path.take(i as int).len() && path.take(i as int)[j] == id;
                        assert(path.take(i + 1)[j] == id);
                    }
                    if id == node {
                        assert(path.take(i + 1)[i as int] == id);
                    }
                }
            }
            match self.board_cache.get(&node) {
                Some(kept) => {
                    assert(self@.cached.dom().contains(node as int));
                    board = share(kept);
                    assert(self@.cached =~= Map::new(
                        |id: int| start.dom().contains(id) || path.take(i + 1).contains(id),
                        |id: int| position_at(t, id, size),
                    ));
                },
                None => {
                    board = replay_properties(board, &self.tree.get(node).properties);
                    assert(board@ == position_at(t, node as int, size));
                    let ghost before = self.board_cache@;
                    assert(!self@.cached.dom().contains(node as int));
                    self.board_cache.insert(node, share(&board));
                    proof {
                        lemma_cache_insert(before, node, board);
                        assert forall|id: int| #[trigger]
                            self@.cached.dom().contains(id) implies 0 <= id < t.len()
                            && self@.cached[id] == position_at(t, id, size) by {}
                    }
                },
            }
            i = i + 1;
        }
        proof {
            assert(path.take(steps + 1) =~= path);
        }
        board
    }

    /// Returns the number of moves that lead to the current node.
    pub fn get_move_count(&self) -> (count: u32)
        requires
            self.wf(),
        ensures
            count == clamped(depth(self@.tree, self@.current) as int),
    {
        clamp(self.history.len())
    }

    /// Returns the number of moves of the longest line of the record.
    pub fn get_max_move_count(&self) -> (count: u32)
        requires
            self.wf(),
        ensures
            count == clamped(height(self@.tree, 0) as int),
    {
        clamp(get_max_depth(&self.tree, 0))
    }

    /// Returns the colour to play next: the opponent of the colour that
    /// moved at the current node, and black where no move was made there.
    pub fn get_next_color(&self) -> (color: StoneColor)
        requires
            self.wf(),
        ensures
            color == next_color(self@.tree[self@.current].properties),
    {
        let node = self.tree.get(self.current_node);
        let ghost views = node@.properties;
        let mut i: usize = 0;
        assert(views.skip(0) =~= views);
        while i < node.properties.len()
            invariant
                i <= node.properties.len(),
                views == node@.properties,
                node@ == self@.tree[self@.current],
                next_color(views) == next_color(views.skip(i as int)),
            decreases node.properties.len() - i,
        {
            proof {
                assert(views.skip(i as int).drop_first() =~= views.skip(i + 1));
            }
            match color_of(node.properties[i].identifier.as_str()) {
                Some(color) => {
                    return color.opponent();
                },
                None => {},
            }
            i = i + 1;
        }
        StoneColor::Black
    }

    /// Returns a copy of the move made at the current node: its first move
    /// property, if it has one.
    pub fn get_last_move(&self) -> (played: Option<SgfProperty>)
        requires
            self.wf(),
        ensures
            match played {
                Some(property) => first_move(self@.tree[self@.current].properties) == Some(
                    property@,
                ),
                None => first_move(self@.tree[self@.current].properties) is None,
            },
    {
        find_move(&self.tree.get(self.current_node).properties)
    }

    /// Returns copies of the moves on the way from the root to the current
    /// node: the first move property of each node that has one.
    pub fn get_current_path_moves(&self) -> (moves: Vec<SgfProperty>)
        requires
            self.wf(),
        ensures
            property_views(moves@) == path_moves(
                self@.tree,
                self@.history.push(self@.current),
            ),
    {
        let ghost t = self@.tree;
        let ghost way = self@.history.push(self@.current);
        let steps = self.history.len();
        let total = self.tree.len();
        let mut moves: Vec<SgfProperty> = Vec::new();
        let mut i: usize = 0;
        proof {
            crate::tree::lemma_depth_bound(t, self@.current);
        }
        while i <= steps
            invariant
                i <= steps + 1,
                steps < total,
                steps == self.history@.len(),
                self.wf(),
                t == self@.tree,
                way == self@.history.push(self@.current),
                property_views(moves@) == path_moves(t, way.take(i as int)),
            decreases steps + 1 - i,
        {
            let node = if i < steps {
                self.history[i]
            } else {
                self.current_node
            };
            proof {
                assert(way.take(i + 1).drop_last() =~= way.take(i as int));
                if i < steps {
                    lemma_ancestors_prefix(t, self@.current, i as int);
                }
            }
            match find_move(&self.tree.get(node).properties) {
                Some(property) => {
                    moves.push(property);
                },
                None => {},
            }
            i = i + 1;
        }
        proof {
            assert(way.take(steps + 1) =~= way);
        }
        moves
    }

    /// Returns the moves on the way from the root to the current node as an
    /// engine reads them: for each, the identifier of the colour and the
    /// vertex, or `pass`.
    pub fn get_analysis_moves(&self) -> (moves: Vec<Vec<String>>)
        requires
            self.wf(),
        ensures
            moves@.map_values(|m: Vec<String>| texts(m@)) == path_engine_moves(
                self@.tree,
                self@.history.push(self@.current),
                self@.size,
            ),
    {
        let ghost t = self@.tree;
        let ghost way = self@.history.push(self@.current);
        let steps = self.history.len();
        let total = self.tree.len();
        let mut moves: Vec<Vec<String>> = Vec::new();
        let mut i: usize = 0;
        proof {
            crate::tree::lemma_depth_bound(t, self@.current);
        }
        while i <= steps
            invariant
                i <= steps + 1,
                steps < total,
                steps == self.history@.len(),
                self.wf(),
                t == self@.tree,
                way == self@.history.push(self@.current),
                moves@.map_values(|m: Vec<String>| texts(m@)) == path_engine_moves(
                    t,
                    way.take(i as int),
                    self@.size,
                ),
            decreases steps + 1 - i,
        {
            let node = if i < steps {
                self.history[i]
            } else {
                self.current_node
            };
            proof {
                assert(way.take(i + 1).drop_last() =~= way.take(i as int));
                if i < steps {
                    lemma_ancestors_prefix(t, self@.current, i as int);
                }
            }
            let properties = &self.tree.get(node).properties;
            let ghost views = property_views(properties@);
            let ghost start = moves@.map_values(|m: Vec<String>| texts(m@));
            let mut k: usize = 0;
            while k < properties.len()
                invariant
                    k <= properties.len(),
                    self.size <= MAX_GAME_SIZE,
                    views == property_views(properties@),
                    moves@.map_values(|m: Vec<String>| texts(m@)) == start + engine_moves(
                        views.take(k as int),
                        self@.size,
                    ),
                decreases properties.len() - k,
            {
                let property = &properties[k];
                proof {
                    assert(views.take(k + 1).drop_last() =~= views.take(k as int));
                }
                let ghost sofar = moves@.map_values(|m: Vec<String>| texts(m@));
                if color_of(property.identifier.as_str()).is_some() {
                    if property.values.len() > 0 {
                        let vertex = sgf_to_gtp(property.values[0].as_str(), self.size);
                        let mut entry: Vec<String> = Vec::new();
                        entry.push(property.identifier.clone());
                        entry.push(vertex);
                        assert(texts(entry@) =~= seq![
                            property@.identifier,
                            engine_vertex(property@.values[0], self@.size),
                        ]);
                        moves.push(entry);
                        assert(moves@.map_values(|m: Vec<String>| texts(m@)) =~= sofar.push(
                            texts(entry@),
                        ));
                    }
                }
                k = k + 1;
            }
            proof {
                assert(views.take(properties.len() as int) =~= views);
            }
            i = i + 1;
        }
        proof {
            assert(way.take(steps + 1) =~= way);
        }
        moves
    }

    /// Tells whether the session can go back: everywhere but at the root.
    pub fn can_go_back(&self) -> (can: bool)
        requires
            self.wf(),
        ensures
            can == (self@.current != 0),
            can == (depth(self@.tree, self@.current) > 0),
    {
        proof {
            lemma_back_to_root(self@.tree, self@.current, 0);
        }
        self.history.len() > 0
    }

    /// Tells whether the current node has a child to go forward to.
    pub fn can_go_forward(&self) -> (can: bool)
        requires
            self.wf(),
        ensures
            can == (self@.tree[self@.current].children.len() > 0),
    {
        self.tree.get(self.current_node).children.len() > 0
    }

    /// Goes back to the parent of the current node. At the root the session
    /// stays where it is and the answer is `false`.
    pub fn go_back(&mut self) -> (moved: bool)
        requires
            old(self).wf(),
        ensures
            final(self).wf(),
            moved == (old(self)@.current != 0),
            final(self)@ == if moved {
                GameView {
                    current: old(self)@.history.last(),
                    history: old(self)@.history.drop_last(),
                    ..old(self)@
                }
            } else {
                old(self)@
            },
            moved ==> final(self)@.current == old(self)@.tree[old(self)@.current].parent->0,
    {
        proof {
            lemma_back_to_root(self@.tree, self@.current, 0);
        }
        let ghost t = self@.tree;
        let ghost c = self@.current;
        match self.history.pop() {
            Some(previous) => {
                proof {
                    let p = t[c].parent->0;
                    assert(ancestors(t, c).drop_last() =~= ancestors(t, p));
                    assert(ints(self.history@) =~= ints(old(self).history@).drop_last());
                }
                self.current_node = previous;
                true
            },
            None => false,
        }
    }

    /// Goes forward to the child at the given place among the current
    /// node's children. Where there is no such child the session stays
    /// where it is and the answer is `false`.
    pub fn go_forward(&mut self, index: u32) -> (moved: bool)
        requires
            old(self).wf(),
        ensures
            final(self).wf(),
            moved == (index < old(self)@.tree[old(self)@.current].children.len()),
            final(self)@ == if moved {
                entered(old(self)@, old(self)@.tree[old(self)@.current].children[index as int])
            } else {
                old(self)@
            },
    {
        let node = self.tree.get(self.current_node);
        if (index as usize) < node.children.len() {
            let child = node.children[index as usize];
            proof {
                lemma_ancestors_of_child(self@.tree, self@.current, index as int);
            }
            self.enter(child);
            true
        } else {
            false
        }
    }

    /// Steps from the current node to one of its children.
    fn enter(&mut self, child: usize)
        requires
            old(self).wf(),
            child < old(self)@.tree.len(),
            ancestors(old(self)@.tree, child as int) == old(self)@.history.push(
                old(self)@.current,
            ),
        ensures
            final(self).wf(),
            final(self)@ == entered(old(self)@, child as int),
    {
        let current = self.current_node;
        self.history.push(current);
        self.current_node = child;
        proof {
            assert(ints(self.history@) =~= ints(old(self).history@).push(current as int));
        }
    }

    /// Plays a stone of `color` on `(x, y)` at the current node.
    ///
    /// Where a child of the current node already records this move, the
    /// session goes forward to the first such child and the record stays as
    /// it is. Otherwise the move is played on the position at the current
    /// node. A move that the rules refuse is reported and changes neither
    /// the record nor where the session stands. A legal move is added to the
    /// record as the last child of the current node, the session goes
    /// forward to it, and the position after the move is kept.
    pub fn place_stone(&mut self, x: u32, y: u32, color: StoneColor) -> (res: Result<(), SgfError>)
        requires
            old(self).wf(),
        ensures
            final(self).wf(),
            !(x < MAX_GAME_SIZE && y < MAX_GAME_SIZE) ==> res == Err::<(), SgfError>(
                SgfError::OutOfBounds,
            ) && final(self)@ == old(self)@,
            x < MAX_GAME_SIZE && y < MAX_GAME_SIZE ==> match recorded_child(
                old(self)@.tree,
                old(self)@.current,
                move_identifier(color),
                point_text((x as int, y as int)),
            ) {
                Some(k) => res is Ok && final(self)@ == entered(
                    old(self)@,
                    old(self)@.tree[old(self)@.current].children[k],
                ),
                None => match play(
                    position_at(old(self)@.tree, old(self)@.current, old(self)@.size),
                    (x as int, y as int),
                    color,
                ) {
                    Err(reason) => res == Err::<(), SgfError>(reason) && final(self)@ == (GameView {
                        cached: derived(old(self)@),
                        ..old(self)@
                    }),
                    Ok(next) => res is Ok && final(self)@ == (GameView {
                        tree: with_child(
                            old(self)@.tree,
                            old(self)@.current,
                            seq![
                                PropertyView {
                                    identifier: move_identifier(color),
                                    values: seq![point_text((x as int, y as int))],
                                },
                            ],
                        ),
                        current: old(self)@.tree.len() as int,
                        history: way(old(self)@),
                        cached: derived(old(self)@).insert(old(self)@.tree.len() as int, next),
                        size: old(self)@.size,
                    }),
                },
            },
    {
        broadcast use vstd::std_specs::hash::group_hash_axioms;

        if x >= MAX_GAME_SIZE || y >= MAX_GAME_SIZE {
            return Err(SgfError::OutOfBounds);
        }
        let coords = write_point(x, y);
        proof {
            reveal_strlit("B");
            reveal_strlit("W");
            assert("W"@ =~= seq!['W']);
        }
        let prop_id = match color {
            StoneColor::Black => "B",
            StoneColor::White => "W",
        };
        let ghost t = self@.tree;
        let ghost here = self@.current;
        let ghost identifier = move_identifier(color);
        let ghost text = point_text((x as int, y as int));
        let node = self.tree.get(self.current_node);
        let mut k: usize = 0;
        let mut existing: Option<usize> = None;
        while k < node.children.len() && existing.is_none()
            invariant
                k <= node.children.len(),
                self.wf(),
                self@ == old(self)@,
                t == self@.tree,
                here == self@.current,
                node@ == t[here],
                prop_id@ == identifier,
                coords@ == text,
                forall|j: int|
                    0 <= j < k ==> !#[trigger] records_move(
                        t[t[here].children[j]],
                        identifier,
                        text,
                    ),
                existing matches Some(child) ==> k < node.children.len() && child
                    == t[here].children[k as int] && records_move(
                    t[t[here].children[k as int]],
                    identifier,
                    text,
                ),
            decreases
                    2 * (node.children.len() - k) + if existing is None {
                        1int
                    } else {
                        0int
                    },
        {
            let child = node.children[k];
            assert(t[here].children[k as int] == child);
            if node_records(self.tree.get(child), prop_id, coords.as_str()) {
                existing = Some(child);
            } else {
                k = k + 1;
            }
        }
        match existing {
            Some(child) => {
                proof {
                    lemma_ancestors_of_child(t, here, k as int);
                }
                self.enter(child);
                return Ok(());
            },
            None => {},
        }
        let board = self.get_board();
        let next = match board.place_stone(x, y, color) {
            Ok(next) => next,
            Err(reason) => {
                return Err(reason);
            },
        };
        let mut values: Vec<String> = Vec::new();
        values.push(coords);
        let property = SgfProperty { identifier: String::from_str(prop_id), values };
        proof {
            let before = position_at(t, here, self@.size);
            let played = seq![property@];
            assert(texts(values@) =~= seq![text]);
            assert(property@ == PropertyView { identifier, values: seq![text] });
            crate::replay::lemma_move_identifier(color);
            assert(crate::coords::point_of(text) == Some((x as int, y as int)));
            assert(played.drop_last() =~= Seq::empty());
            assert(apply_properties(before, played.drop_last()) == before);
            assert(apply_properties(before, played) == next@);
        }
        self.record(property, next);
        Ok(())
    }

    /// Adds a node with one property as the last child of the current node,
    /// goes forward to it and keeps the position there.
    fn record(&mut self, property: SgfProperty, next: Arc<Board>)
        requires
            old(self).wf(),
            next@ == apply_properties(
                position_at(old(self)@.tree, old(self)@.current, old(self)@.size),
                seq![property@],
            ),
        ensures
            final(self).wf(),
            final(self)@ == (GameView {
                tree: with_child(old(self)@.tree, old(self)@.current, seq![property@]),
                current: old(self)@.tree.len() as int,
                history: way(old(self)@),
                cached: old(self)@.cached.insert(old(self)@.tree.len() as int, next@),
                size: old(self)@.size,
            }),
    {
        broadcast use vstd::std_specs::hash::group_hash_axioms;

        let ghost t = self@.tree;
        let ghost here = self@.current;
        let ghost size = self@.size;
        let ghost kept = self@.cached;
        let mut properties: Vec<SgfProperty> = Vec::new();
        properties.push(property);
        let ghost views = property_views(properties@);
        assert(views =~= seq![property@]);
        let current = self.current_node;
        let id = self.tree.add_child(current, properties);
        let ghost u = self.tree@;
        proof {
            crate::tree::lemma_with_child(t, here, views);
        }
        self.history.push(current);
        self.current_node = id;
        let ghost cache_before = self.board_cache@;
        self.board_cache.insert(id, next);
        proof {
            lemma_cache_insert(cache_before, id, next);
            assert(self@.cached == kept.insert(id as int, next@));
            assert(ints(self.history@) =~= ints(old(self).history@).push(current as int));
            assert(u[here].children[t[here].children.len() as int] == id);
            lemma_ancestors_of_child(u, here, t[here].children.len() as int);
            lemma_ancestors_kept(t, u, here);
            assert forall|c: int| #[trigger] self@.cached.dom().contains(c) implies 0 <= c
                < u.len() && self@.cached[c] == position_at(u, c, size) by {
                if c == id {
                    lemma_position_kept(t, u, here, size);
                    assert(u[id as int].parent == Some(here));
                    assert(u[id as int].properties == views);
                } else {
                    assert(kept.dom().contains(c));
                    lemma_position_kept(t, u, c, size);
                }
            }
        }
    }
}

/// The ancestors of a node are the same after a node was added to the
/// record.
proof fn lemma_ancestors_kept(t: Seq<NodeView>, u: Seq<NodeView>, c: int)
    requires
        0 <= c < t.len() <= u.len(),
        forall|i: int| 0 <= i < t.len() ==> (#[trigger] u[i]).parent == t[i].parent,
    ensures
        ancestors(u, c) == ancestors(t, c),
    decreases c,
{
    if 0 < c && t[c].parent is Some && 0 <= t[c].parent->0 < c {
        lemma_ancestors_kept(t, u, t[c].parent->0);
    }
}

/// The position at a node is the same after a node was added to the record.
proof fn lemma_position_kept(t: Seq<NodeView>, u: Seq<NodeView>, c: int, size: int)
    requires
        0 <= c < t.len() <= u.len(),
        forall|i: int|
            0 <= i < t.len() ==> (#[trigger] u[i]).parent == t[i].parent && u[i].properties
                == t[i].properties,
    ensures
        position_at(u, c, size) == position_at(t, c, size),
    decreases c,
{
    if 0 < c && t[c].parent is Some && 0 <= t[c].parent->0 < c {
        lemma_position_kept(t, u, t[c].parent->0, size);
    }
}

/// Returns the side length that the properties of a root declare.
fn read_size(properties: &Vec<SgfProperty>) -> (size: u32)
    ensures
        size == declared_size(property_views(properties@)),
{
    proof {
        reveal_strlit("SZ");
    }
    let ghost views = property_views(properties@);
    let mut i: usize = 0;
    assert(views.skip(0) =~= views);
    while i < properties.len()
        invariant
            i <= properties.len(),
            views == property_views(properties@),
            "SZ"@ == seq!['S', 'Z'],
            declared_size(views) == declared_size(views.skip(i as int)),
        decreases properties.len() - i,
    {
        let property = &properties[i];
        proof {
            assert(views.skip(i as int).drop_first() =~= views.skip(i + 1));
        }
        if text_eq(property.identifier.as_str(), "SZ") {
            if property.values.len() > 0 {
                return match parse_number(property.values[0].as_str()) {
                    Some(n) => n,
                    None => 19,
                };
            }
            return 19;
        }
        i = i + 1;
    }
    19
}

/// Returns a copy of the first move property among these, if there is one.
fn find_move(properties: &Vec<SgfProperty>) -> (played: Option<SgfProperty>)
    ensures
        match played {
            Some(property) => first_move(property_views(properties@)) == Some(property@),
            None => first_move(property_views(properties@)) is None,
        },
{
    let ghost views = property_views(properties@);
    let mut i: usize = 0;
    assert(views.skip(0) =~= views);
    while i < properties.len()
        invariant
            i <= properties.len(),
            views == property_views(properties@),
            first_move(views) == first_move(views.skip(i as int)),
        decreases properties.len() - i,
    {
        proof {
            assert(views.skip(i as int).drop_first() =~= views.skip(i + 1));
        }
        if color_of(properties[i].identifier.as_str()).is_some() {
            return Some(properties[i].duplicate());
        }
        i = i + 1;
    }
    None
}

} // verus!
