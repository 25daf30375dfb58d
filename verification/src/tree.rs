//! The game record: a tree of nodes held in one arena.
//!
//! Within its record a node is known by its handle, its place in the arena.
//! Nodes are only ever added, so a handle stays good, and a child's handle
//! is always larger than its parent's. Every node carries the mark of its
//! record, which tells it from the nodes of every other record.

use vstd::prelude::*;
use vstd::string::StringExecFns;
use crate::text::{decimal_text, text_eq};

verus! {

/// The model of a property: its identifier and its values, in order.
pub struct PropertyView {
    pub identifier: Seq<char>,
    pub values: Seq<Seq<char>>,
}

/// The model of a node: the mark of the record it belongs to, its handle,
/// its parent's handle, its properties, and its children's handles in the
/// order in which they were added.
pub struct NodeView {
    pub record: int,
    pub id: int,
    pub parent: Option<int>,
    pub properties: Seq<PropertyView>,
    pub children: Seq<int>,
}

/// A property of a node: an identifier such as `B` or `KM`, with its values.
#[derive(Clone, Debug, PartialEq, Eq)]
pub struct SgfProperty {
    pub identifier: String,
    pub values: Vec<String>,
}

/// A node of the game record. A node is known by the mark of its record
/// and its handle there: a copy of a node is the same node, and a node of
/// another record is another node, whatever it holds.
#[derive(Clone, Debug, PartialEq, Eq)]
pub struct SgfNode {
    pub record: u64,
    pub id: usize,
    pub parent: Option<usize>,
    pub properties: Vec<SgfProperty>,
    pub children: Vec<usize>,
}

/// A game record: the root node and every node below it.
#[derive(Debug)]
pub struct SgfTree {
    nodes: Vec<SgfNode>,
}

/// The handles in a list, as integers.
pub open spec fn ints(s: Seq<usize>) -> Seq<int> {
    s.map_values(|x: usize| x as int)
}

/// The texts in a list.
pub open spec fn texts(s: Seq<String>) -> Seq<Seq<char>> {
    s.map_values(|x: String| x@)
}

impl View for SgfProperty {
    type V = PropertyView;

    open spec fn view(&self) -> PropertyView {
        PropertyView { identifier: self.identifier@, values: texts(self.values@) }
    }
}

/// The models of the properties in a list.
pub open spec fn property_views(s: Seq<SgfProperty>) -> Seq<PropertyView> {
    s.map_values(|p: SgfProperty| p@)
}

impl View for SgfNode {
    type V = NodeView;

    open spec fn view(&self) -> NodeView {
        NodeView {
            record: self.record as int,
            id: self.id as int,
            parent: match self.parent {
                Some(p) => Some(p as int),
                None => None,
            },
            properties: property_views(self.properties@),
            children: ints(self.children@),
        }
    }
}

impl View for SgfTree {
    type V = Seq<NodeView>;

    closed spec fn view(&self) -> Seq<NodeView> {
        self.nodes@.map_values(|n: SgfNode| n@)
    }
}

/// The arena holds a tree: the first node is the root, every other node has
/// one parent, which was added before it and lists it once among its
/// children, and every node knows its own handle and carries the mark of
/// the record.
pub open spec fn tree_wf(t: Seq<NodeView>) -> bool {
    &&& t.len() > 0
    &&& t[0].parent is None
    &&& forall|c: int| 0 <= c < t.len() ==> (#[trigger] t[c]).id == c && t[c].record == t[0].record
    &&& forall|c: int|
        0 < c < t.len() ==> {
            &&& (#[trigger] t[c]).parent is Some
            &&& 0 <= t[c].parent->0 < c
            &&& t[t[c].parent->0].children.contains(c)
        }
    &&& forall|p: int, k: int|
        0 <= p < t.len() && 0 <= k < t[p].children.len() ==> {
            &&& p < (#[trigger] t[p].children[k]) < t.len()
            &&& t[t[p].children[k]].parent == Some(p)
        }
    &&& forall|p: int| 0 <= p < t.len() ==> (#[trigger] t[p]).children.no_duplicates()
}

/// The nodes on the way from the root to a node, the root first and the
/// node's parent last. The root has none.
pub open spec fn ancestors(t: Seq<NodeView>, c: int) -> Seq<int>
    decreases c,
{
    if 0 < c < t.len() && t[c].parent is Some && 0 <= t[c].parent->0 < c {
        ancestors(t, t[c].parent->0).push(t[c].parent->0)
    } else {
        Seq::empty()
    }
}

/// The number of moves that lead to a node.
pub open spec fn depth(t: Seq<NodeView>, c: int) -> nat {
    ancestors(t, c).len()
}

/// Node `c` is node `a` or lies below it.
pub open spec fn in_subtree(t: Seq<NodeView>, a: int, c: int) -> bool {
    0 <= c < t.len() && (c == a || ancestors(t, c).contains(a))
}

/// The length of the longest way down from a node, counting only its first
/// `k` children.
pub open spec fn height_upto(t: Seq<NodeView>, node: int, k: int) -> nat
    decreases t.len() - node, k,
{
    if 0 <= node < t.len() && 0 < k <= t[node].children.len() {
        let child = t[node].children[k - 1];
        let below: nat = if node < child < t.len() {
            1 + height(t, child)
        } else {
            0
        };
        let before = height_upto(t, node, k - 1);
        if below > before {
            below
        } else {
            before
        }
    } else {
        0
    }
}

/// The length of the longest way down from a node: 0 for a leaf, and one
/// more than the largest height of a child otherwise.
pub open spec fn height(t: Seq<NodeView>, node: int) -> nat
    decreases t.len() - node, t.len() + 1,
{
    if 0 <= node < t.len() && t[node].children.len() <= t.len() {
        height_upto(t, node, t[node].children.len() as int)
    } else {
        0
    }
}

/// The first node found `levels` below `node` among its children from the
/// `k`-th on, trying the children in order and each child's whole subtree
/// before the next child.
pub open spec fn first_below(t: Seq<NodeView>, node: int, levels: nat, k: int) -> Option<int>
    decreases levels, t.len() - k,
{
    if levels > 0 && 0 <= node < t.len() && 0 <= k < t[node].children.len() && k < t.len() {
        match first_at(t, t[node].children[k], (levels - 1) as nat) {
            Some(found) => Some(found),
            None => first_below(t, node, levels, k + 1),
        }
    } else {
        None
    }
}

/// The first node found `levels` below `node`, in the order of a depth-first
/// walk that takes the first child first. It is the node itself for 0.
pub open spec fn first_at(t: Seq<NodeView>, node: int, levels: nat) -> Option<int>
    decreases levels, t.len() + 1,
{
    if levels == 0 {
        Some(node)
    } else {
        first_below(t, node, levels, 0)
    }
}

/// The record with one more node: a node with the given properties, added
/// as the last child of `parent`. Its handle is the number of nodes before.
pub open spec fn with_child(t: Seq<NodeView>, parent: int, properties: Seq<PropertyView>) -> Seq<
    NodeView,
> {
    t.update(
        parent,
        NodeView { children: t[parent].children.push(t.len() as int), ..t[parent] },
    ).push(
        NodeView {
            record: t[0].record,
            id: t.len() as int,
            parent: Some(parent),
            properties,
            children: Seq::empty(),
        },
    )
}

/// The node is a node of the record: it carries the record's mark and its
/// handle is one of the record's.
pub open spec fn is_node_of(t: Seq<NodeView>, node: NodeView) -> bool {
    node.record == t[0].record && 0 <= node.id < t.len()
}

/// What a record with one more node holds: the new node at the end, the
/// parent with one more child, and every other node as it was.
pub proof fn lemma_with_child(t: Seq<NodeView>, parent: int, properties: Seq<PropertyView>)
    requires
        0 <= parent < t.len(),
    ensures
        with_child(t, parent, properties).len() == t.len() + 1,
        with_child(t, parent, properties)[t.len() as int] == (NodeView {
            record: t[0].record,
            id: t.len() as int,
            parent: Some(parent),
            properties,
            children: Seq::empty(),
        }),
        with_child(t, parent, properties)[parent] == (NodeView {
            children: t[parent].children.push(t.len() as int),
            ..t[parent]
        }),
        forall|c: int|
            0 <= c < t.len() && c != parent ==> #[trigger] with_child(t, parent, properties)[c]
                == t[c],
{
}

/// The node has a property with the identifier.
pub open spec fn has_property(properties: Seq<PropertyView>, identifier: Seq<char>) -> bool {
    exists|i: int| 0 <= i < properties.len() && (#[trigger] properties[i]).identifier == identifier
}

/// The place of the first property with the identifier.
pub open spec fn first_property(properties: Seq<PropertyView>, identifier: Seq<char>) -> int {
    choose|i: int|
        0 <= i < properties.len() && (#[trigger] properties[i]).identifier == identifier && forall|
            j: int,
        |
            0 <= j < i ==> (#[trigger] properties[j]).identifier != identifier
}

/// The properties with `identifier` given the single value `value`: in place
/// of the values of the first property with that identifier, or as a new
/// last property where there is none.
pub open spec fn with_property(
    properties: Seq<PropertyView>,
    identifier: Seq<char>,
    value: Seq<char>,
) -> Seq<PropertyView> {
    let fresh = PropertyView { identifier, values: seq![value] };
    if has_property(properties, identifier) {
        properties.update(first_property(properties, identifier), fresh)
    } else {
        properties.push(fresh)
    }
}

proof fn lemma_first_before(properties: Seq<PropertyView>, identifier: Seq<char>, k: int)
    requires
        0 <= k < properties.len(),
        properties[k].identifier == identifier,
    ensures
        exists|i: int|
            0 <= i <= k && (#[trigger] properties[i]).identifier == identifier && forall|j: int|
                0 <= j < i ==> (#[trigger] properties[j]).identifier != identifier,
    decreases k,
{
    if exists|j: int| 0 <= j < k && (#[trigger] properties[j]).identifier == identifier {
        let j = choose|j: int| 0 <= j < k && (#[trigger] properties[j]).identifier == identifier;
        lemma_first_before(properties, identifier, j);
    }
}

/// Where a property with the identifier exists, there is a first one.
pub proof fn lemma_first_property(properties: Seq<PropertyView>, identifier: Seq<char>)
    requires
        has_property(properties, identifier),
    ensures
        0 <= first_property(properties, identifier) < properties.len(),
        properties[first_property(properties, identifier)].identifier == identifier,
        forall|j: int|
            0 <= j < first_property(properties, identifier) ==> (
            #[trigger] properties[j]).identifier
                != identifier,
{
    let k = choose|k: int|
        0 <= k < properties.len() && (#[trigger] properties[k]).identifier == identifier;
    lemma_first_before(properties, identifier, k);
}

/// Whether an arena holds a tree does not depend on the properties of its
/// nodes.
pub proof fn lemma_wf_ignores_properties(t: Seq<NodeView>, u: Seq<NodeView>)
    requires
        tree_wf(t),
        t.len() == u.len(),
        forall|c: int|
            0 <= c < t.len() ==> (#[trigger] u[c]).id == t[c].id && u[c].record == t[c].record
                && u[c].parent == t[c].parent && u[c].children == t[c].children,
    ensures
        tree_wf(u),
{
    assert forall|c: int| 0 < c < u.len() implies {
        &&& (#[trigger] u[c]).parent is Some
        &&& 0 <= u[c].parent->0 < c
        &&& u[u[c].parent->0].children.contains(c)
    } by {}
    assert forall|p: int, k: int| 0 <= p < u.len() && 0 <= k < u[p].children.len() implies {
        &&& p < (#[trigger] u[p].children[k]) < u.len()
        &&& u[u[p].children[k]].parent == Some(p)
    } by {}
    assert forall|p: int| 0 <= p < u.len() implies (#[trigger] u[p]).children.no_duplicates() by {}
    assert forall|c: int| 0 <= c < u.len() implies (#[trigger] u[c]).id == c by {}
}

/// The ancestors of a child are those of its parent, and the parent.
pub proof fn lemma_ancestors_of_child(t: Seq<NodeView>, p: int, k: int)
    requires
        tree_wf(t),
        0 <= p < t.len(),
        0 <= k < t[p].children.len(),
    ensures
        ancestors(t, t[p].children[k]) == ancestors(t, p).push(p),
{
}

/// Every ancestor of a node comes before it, and its own ancestors are the
/// ones listed before it.
pub proof fn lemma_ancestors_prefix(t: Seq<NodeView>, c: int, j: int)
    requires
        tree_wf(t),
        0 <= c < t.len(),
        0 <= j < ancestors(t, c).len(),
    ensures
        0 <= ancestors(t, c)[j] < c,
        ancestors(t, ancestors(t, c)[j]) == ancestors(t, c).take(j),
    decreases c,
{
    let p = t[c].parent->0;
    let up = ancestors(t, p);
    if j < up.len() {
        lemma_ancestors_prefix(t, p, j);
    }
}

/// There are fewer ancestors than the node's handle.
pub proof fn lemma_depth_bound(t: Seq<NodeView>, c: int)
    requires
        tree_wf(t),
        0 <= c < t.len(),
    ensures
        depth(t, c) <= c,
    decreases c,
{
    if c > 0 {
        lemma_depth_bound(t, t[c].parent->0);
    }
}

/// Every node lies in the subtree of the root.
pub proof fn lemma_root_above_all(t: Seq<NodeView>, c: int)
    requires
        tree_wf(t),
        0 <= c < t.len(),
    ensures
        in_subtree(t, 0, c),
        c > 0 ==> ancestors(t, c)[0] == 0,
    decreases c,
{
    if c > 0 {
        let p = t[c].parent->0;
        lemma_root_above_all(t, p);
        let up = ancestors(t, p);
        if p == 0 {
            assert(up.push(p)[0] == 0);
        } else {
            assert(up.push(p)[0] == up[0]);
        }
    }
}

/// A node below another lies in the subtree of one of that node's children.
pub proof fn lemma_subtree_step(t: Seq<NodeView>, a: int, c: int) -> (k: int)
    requires
        tree_wf(t),
        0 <= a < t.len(),
        in_subtree(t, a, c),
        c != a,
    ensures
        0 <= k < t[a].children.len(),
        in_subtree(t, t[a].children[k], c),
{
    let up = ancestors(t, c);
    let j = choose|j: int| 0 <= j < up.len() && up[j] == a;
    let next = if j + 1 < up.len() {
        up[j + 1]
    } else {
        c
    };
    if j + 1 < up.len() {
        lemma_ancestors_prefix(t, c, j + 1);
        assert(up.take(j + 1).last() == up[j]);
    }
    lemma_ancestors_prefix(t, c, j);
    let k = choose|k: int| 0 <= k < t[a].children.len() && t[a].children[k] == next;
    k
}

/// A node in the subtree of a child lies in the subtree of the parent.
pub proof fn lemma_subtree_up(t: Seq<NodeView>, p: int, k: int, c: int)
    requires
        tree_wf(t),
        0 <= p < t.len(),
        0 <= k < t[p].children.len(),
        in_subtree(t, t[p].children[k], c),
    ensures
        in_subtree(t, p, c),
        c != p,
{
    let child = t[p].children[k];
    lemma_ancestors_of_child(t, p, k);
    let up = ancestors(t, child);
    assert(up.last() == p);
    if c != child {
        let j = choose|j: int| 0 <= j < ancestors(t, c).len() && ancestors(t, c)[j] == child;
        lemma_ancestors_prefix(t, c, j);
        if c == p {
            lemma_ancestors_prefix(t, c, up.len() - 1);
        }
    }
}

/// The height of a node is less than the number of nodes added after it.
pub proof fn lemma_height_bound(t: Seq<NodeView>, node: int)
    requires
        tree_wf(t),
        0 <= node < t.len(),
    ensures
        height(t, node) + node < t.len(),
    decreases t.len() - node, t.len() + 1,
{
    lemma_children_count(t, node);
    lemma_height_upto_bound(t, node, t[node].children.len() as int);
}

proof fn lemma_height_upto_bound(t: Seq<NodeView>, node: int, k: int)
    requires
        tree_wf(t),
        0 <= node < t.len(),
        0 <= k <= t[node].children.len(),
        t[node].children.len() <= t.len(),
    ensures
        height_upto(t, node, k) + node < t.len(),
    decreases t.len() - node, k,
{
    if k > 0 {
        let child = t[node].children[k - 1];
        lemma_height_bound(t, child);
        lemma_height_upto_bound(t, node, k - 1);
    }
}

/// A node has fewer children than the arena has nodes.
pub proof fn lemma_children_count(t: Seq<NodeView>, node: int)
    requires
        tree_wf(t),
        0 <= node < t.len(),
    ensures
        t[node].children.len() < t.len(),
{
    let kids = t[node].children;
    let range = vstd::set_lib::set_int_range(node + 1, t.len() as int);
    vstd::set_lib::lemma_int_range(node + 1, t.len() as int);
    kids.unique_seq_to_set();
    assert forall|c: int| kids.to_set().contains(c) implies range.contains(c) by {}
    vstd::set_lib::lemma_len_subset(kids.to_set(), range);
}

/// The children that a search below a node has already tried hold no node
/// at the wanted depth, and what it finds lies below a later child.
proof fn lemma_first_below(t: Seq<NodeView>, node: int, levels: nat, k: int)
    requires
        tree_wf(t),
        0 <= node < t.len(),
        levels > 0,
        0 <= k <= t[node].children.len(),
    ensures
        match first_below(t, node, levels, k) {
            Some(found) => exists|j: int|
                k <= j < t[node].children.len() && #[trigger] first_at(
                    t,
                    t[node].children[j],
                    (levels - 1) as nat,
                ) == Some(found),
            None => forall|j: int|
                k <= j < t[node].children.len() ==> #[trigger] first_at(
                    t,
                    t[node].children[j],
                    (levels - 1) as nat,
                ) is None,
        },
    decreases t[node].children.len() - k,
{
    lemma_children_count(t, node);
    if k < t[node].children.len() {
        lemma_first_below(t, node, levels, k + 1);
        match first_at(t, t[node].children[k], (levels - 1) as nat) {
            Some(found) => {},
            None => {},
        }
    }
}

/// What a search for a depth finds lies below the node it started from, at
/// that depth; and where it finds nothing, no node below lies that deep.
pub proof fn lemma_first_at(t: Seq<NodeView>, node: int, levels: nat)
    requires
        tree_wf(t),
        0 <= node < t.len(),
    ensures
        match first_at(t, node, levels) {
            Some(found) => in_subtree(t, node, found) && depth(t, found) == depth(t, node)
                + levels,
            None => forall|c: int|
                in_subtree(t, node, c) ==> depth(t, c) != depth(t, node) + levels,
        },
    decreases levels,
{
    if levels > 0 {
        lemma_first_below(t, node, levels, 0);
        match first_below(t, node, levels, 0) {
            Some(found) => {
                let j = choose|j: int|
                    0 <= j < t[node].children.len() && #[trigger] first_at(
                        t,
                        t[node].children[j],
                        (levels - 1) as nat,
                    ) == Some(found);
                lemma_first_at(t, t[node].children[j], (levels - 1) as nat);
                lemma_subtree_up(t, node, j, found);
                lemma_ancestors_of_child(t, node, j);
            },
            None => {
                assert forall|c: int| in_subtree(t, node, c) implies depth(t, c) != depth(
                    t,
                    node,
                ) + levels by {
                    if c != node {
                        let j = lemma_subtree_step(t, node, c);
                        lemma_first_at(t, t[node].children[j], (levels - 1) as nat);
                        lemma_ancestors_of_child(t, node, j);
                    }
                }
            },
        }
    }
}

proof fn lemma_height_upto(t: Seq<NodeView>, node: int, k: int)
    requires
        tree_wf(t),
        0 <= node < t.len(),
        0 <= k <= t[node].children.len(),
    ensures
        forall|j: int|
            0 <= j < k ==> 1 + height(t, #[trigger] t[node].children[j]) <= height_upto(
                t,
                node,
                k,
            ),
        height_upto(t, node, k) > 0 ==> exists|j: int|
            0 <= j < k && 1 + height(t, #[trigger] t[node].children[j]) == height_upto(t, node, k),
        k == 0 ==> height_upto(t, node, k) == 0,
    decreases k,
{
    if k > 0 {
        lemma_height_upto(t, node, k - 1);
    }
}

/// The height of a node is the depth of the deepest node below it, counted
/// from the node: some node below lies that deep, and none lies deeper.
pub proof fn lemma_height(t: Seq<NodeView>, node: int)
    requires
        tree_wf(t),
        0 <= node < t.len(),
    ensures
        exists|c: int| in_subtree(t, node, c) && #[trigger] depth(t, c) == depth(t, node) + height(
            t,
            node,
        ),
        forall|c: int| in_subtree(t, node, c) ==> #[trigger] depth(t, c) <= depth(t, node) + height(
            t,
            node,
        ),
    decreases t.len() - node,
{
    lemma_children_count(t, node);
    let n = t[node].children.len() as int;
    lemma_height_upto(t, node, n);
    if height(t, node) > 0 {
        let j = choose|j: int|
            0 <= j < n && 1 + height(t, #[trigger] t[node].children[j]) == height_upto(t, node, n);
        let child = t[node].children[j];
        lemma_height(t, child);
        lemma_ancestors_of_child(t, node, j);
        let c = choose|c: int|
            in_subtree(t, child, c) && #[trigger] depth(t, c) == depth(t, child) + height(
                t,
                child,
            );
        lemma_subtree_up(t, node, j, c);
    }
    assert forall|c: int| in_subtree(t, node, c) implies #[trigger] depth(t, c) <= depth(t, node)
        + height(t, node) by {
        if c != node {
            let j = lemma_subtree_step(t, node, c);
            let child = t[node].children[j];
            lemma_height(t, child);
            lemma_ancestors_of_child(t, node, j);
        }
    }
}

/// `RandomState::new` of the standard library makes the state of a hasher
/// with keys drawn at random. Nothing is claimed of it.
#[verifier::external_body]
fn random_state() -> std::collections::hash_map::RandomState {
    std::collections::hash_map::RandomState::new()
}

/// `BuildHasher::hash_one` of the standard library hashes one value under
/// the keys of a state. Nothing is claimed of the number.
#[verifier::external_body]
fn hash_under(state: &std::collections::hash_map::RandomState) -> u64 {
    std::hash::BuildHasher::hash_one(state, 0u8)
}

/// Returns a mark for a new record: a number drawn at random, which tells
/// the record from every other record for all practical purposes. No
/// contract rests on two marks being different.
fn fresh_mark() -> u64 {
    let state = random_state();
    hash_under(&state)
}

impl SgfProperty {
    /// Returns a copy of the property.
    pub fn duplicate(&self) -> (copy: SgfProperty)
        ensures
            copy@ == self@,
    {
        let mut values: Vec<String> = Vec::new();
        let mut i: usize = 0;
        while i < self.values.len()
            invariant
                i <= self.values.len(),
                texts(values@) == texts(self.values@).take(i as int),
            decreases self.values.len() - i,
        {
            let value = self.values[i].clone();
            values.push(value);
            assert(texts(values@) =~= texts(self.values@).take(i as int).push(value@));
            i = i + 1;
        }
        assert(texts(self.values@).take(self.values.len() as int) =~= texts(self.values@));
        SgfProperty { identifier: self.identifier.clone(), values }
    }
}

/// Returns a copy of a list of properties.
pub fn duplicate_properties(properties: &Vec<SgfProperty>) -> (copy: Vec<SgfProperty>)
    ensures
        property_views(copy@) == property_views(properties@),
{
    let mut copy: Vec<SgfProperty> = Vec::new();
    let mut i: usize = 0;
    while i < properties.len()
        invariant
            i <= properties.len(),
            property_views(copy@) == property_views(properties@).take(i as int),
        decreases properties.len() - i,
    {
        let property = properties[i].duplicate();
        copy.push(property);
        assert(property_views(copy@) =~= property_views(properties@).take(i as int).push(
            property@,
        ));
        i = i + 1;
    }
    copy
}

/// Returns a copy of a list of handles.
pub fn duplicate_handles(handles: &Vec<usize>) -> (copy: Vec<usize>)
    ensures
        copy@ == handles@,
{
    let mut copy: Vec<usize> = Vec::new();
    let mut i: usize = 0;
    while i < handles.len()
        invariant
            i <= handles.len(),
            copy@ == handles@.take(i as int),
        decreases handles.len() - i,
    {
        copy.push(handles[i]);
        i = i + 1;
    }
    copy
}

impl SgfNode {
    /// Returns the text that tells the node from every other: the mark of
    /// its record, a colon, and its handle there.
    pub fn get_id(&self) -> (text: String)
        ensures
            text@ == crate::text::decimal(self@.record as nat) + seq![':'] + crate::text::decimal(
                self@.id as nat,
            ),
    {
        let mut text = decimal_text(self.record);
        text.push(':');
        let handle = decimal_text(self.id as u64);
        text.append(handle.as_str());
        text
    }

    /// Returns a copy of the node's properties.
    pub fn get_properties(&self) -> (properties: Vec<SgfProperty>)
        ensures
            property_views(properties@) == self@.properties,
    {
        duplicate_properties(&self.properties)
    }

    /// Returns the handles of the node's children, in the order in which
    /// they were added.
    pub fn get_children(&self) -> (children: Vec<usize>)
        ensures
            ints(children@) == self@.children,
    {
        duplicate_handles(&self.children)
    }

    /// Returns a copy of the node.
    pub fn duplicate(&self) -> (copy: SgfNode)
        ensures
            copy@ == self@,
    {
        SgfNode {
            record: self.record,
            id: self.id,
            parent: self.parent,
            properties: duplicate_properties(&self.properties),
            children: duplicate_handles(&self.children),
        }
    }
}

impl SgfTree {
    /// The arena holds a tree.
    pub open spec fn wf(&self) -> bool {
        tree_wf(self@)
    }

    /// Creates a record of one node, the root, with the given properties,
    /// under the given mark.
    pub fn with_mark(record: u64, properties: Vec<SgfProperty>) -> (tree: SgfTree)
        ensures
            tree.wf(),
            tree@.len() == 1,
            tree@[0].record == record,
            tree@[0].properties == property_views(properties@),
            tree@[0].children.len() == 0,
    {
        let root = SgfNode { record, id: 0, parent: None, properties, children: Vec::new() };
        let mut nodes: Vec<SgfNode> = Vec::new();
        nodes.push(root);
        let tree = SgfTree { nodes };
        tree
    }

    /// Creates a record of one node, the root, with the given properties,
    /// under a mark of its own.
    pub fn new(properties: Vec<SgfProperty>) -> (tree: SgfTree)
        ensures
            tree.wf(),
            tree@.len() == 1,
            tree@[0].properties == property_views(properties@),
            tree@[0].children.len() == 0,
    {
        SgfTree::with_mark(fresh_mark(), properties)
    }

    /// Returns the number of nodes.
    pub fn len(&self) -> (n: usize)
        ensures
            n == self@.len(),
    {
        self.nodes.len()
    }

    /// Returns the root node.
    pub fn root(&self) -> (node: &SgfNode)
        requires
            self.wf(),
        ensures
            node@ == self@[0],
    {
        &self.nodes[0]
    }

    /// Returns the node with the given handle, if there is one.
    pub fn node(&self, id: usize) -> (node: Option<&SgfNode>)
        ensures
            match node {
                Some(n) => id < self@.len() && n@ == self@[id as int],
                None => id >= self@.len(),
            },
    {
        if id < self.nodes.len() {
            Some(&self.nodes[id])
        } else {
            None
        }
    }

    /// Returns the node with the given handle.
    pub fn get(&self, id: usize) -> (node: &SgfNode)
        requires
            id < self@.len(),
        ensures
            node@ == self@[id as int],
    {
        &self.nodes[id]
    }

    /// Gives the property `identifier` of a node the single value `value`:
    /// the first property with that identifier gets it in place of its
    /// values, and where the node has none, a new property is added last.
    pub fn set_property(&mut self, id: usize, identifier: &str, value: String)
        requires
            old(self).wf(),
            id < old(self)@.len(),
        ensures
            final(self).wf(),
            final(self)@.len() == old(self)@.len(),
            final(self)@[id as int] == (NodeView {
                properties: with_property(old(self)@[id as int].properties, identifier@, value@),
                ..old(self)@[id as int]
            }),
            forall|c: int|
                0 <= c < old(self)@.len() && c != id ==> final(self)@[c] == old(self)@[c],
    {
        let ghost before = self@;
        let ghost props = before[id as int].properties;
        let ghost fresh = PropertyView { identifier: identifier@, values: seq![value@] };
        let count = self.nodes[id].properties.len();
        let mut i: usize = 0;
        while i < count
            invariant
                i <= count,
                self@ == before,
                before == old(self)@,
                fresh == (PropertyView { identifier: identifier@, values: seq![value@] }),
                tree_wf(before),
                id < before.len(),
                count == props.len(),
                props == before[id as int].properties,
                forall|j: int| 0 <= j < i ==> (#[trigger] props[j]).identifier != identifier@,
            decreases count - i,
        {
            assert(self@[id as int].properties[i as int]
                == self.nodes@[id as int].properties@[i as int]@);
            if text_eq(self.nodes[id].properties[i].identifier.as_str(), identifier) {
                let mut values: Vec<String> = Vec::new();
                values.push(value);
                assert(texts(values@) =~= seq![value@]);
                let property = SgfProperty { identifier: String::from_str(identifier), values };
                let ghost stored = self.nodes@[id as int].properties@;
                self.nodes[id].properties.set(i, property);
                proof {
                    let after = self@;
                    assert(property_views(stored.update(i as int, property)) =~= property_views(
                        stored,
                    ).update(i as int, fresh));
                    assert forall|c: int| 0 <= c < before.len() && c != id implies after[c]
                        == before[c] by {}
                    lemma_wf_ignores_properties(before, after);
                }
                return ;
            }
            i = i + 1;
        }
        let mut values: Vec<String> = Vec::new();
        values.push(value);
        assert(texts(values@) =~= seq![value@]);
        let property = SgfProperty { identifier: String::from_str(identifier), values };
        self.nodes[id].properties.push(property);
        proof {
            let after = self@;
            assert(after[id as int].properties =~= props.push(fresh));
            assert forall|c: int| 0 <= c < before.len() && c != id implies after[c]
                == before[c] by {}
            lemma_wf_ignores_properties(before, after);
        }
    }

    /// Adds a node with the given properties as the last child of `parent`.
    /// Returns its handle. Every other node stays as it was.
    pub fn add_child(&mut self, parent: usize, properties: Vec<SgfProperty>) -> (id: usize)
        requires
            old(self).wf(),
            parent < old(self)@.len(),
        ensures
            final(self).wf(),
            id == old(self)@.len(),
            final(self)@ == with_child(old(self)@, parent as int, property_views(properties@)),
    {
        let id = self.nodes.len();
        let ghost before = self@;
        let record = self.nodes[0].record;
        let node = SgfNode { record, id, parent: Some(parent), properties, children: Vec::new() };
        self.nodes.push(node);
        self.nodes[parent].children.push(id);
        proof {
            let after = self@;
            assert(after[id as int].children =~= Seq::empty());
            assert(after[parent as int].children =~= before[parent as int].children.push(
                id as int,
            ));
            assert forall|c: int| 0 <= c < before.len() && c != parent implies after[c]
                == before[c] by {}
            assert forall|c: int| 0 < c < after.len() implies {
                &&& (#[trigger] after[c]).parent is Some
                &&& 0 <= after[c].parent->0 < c
                &&& after[after[c].parent->0].children.contains(c)
            } by {
                if c < before.len() {
                    let p = before[c].parent->0;
                    let k = choose|k: int|
                        0 <= k < before[p].children.len() && before[p].children[k] == c;
                    if p == parent {
                        assert(after[p].children[k] == c);
                    }
                } else {
                    let last = before[parent as int].children.len() as int;
                    assert(after[parent as int].children[last] == c);
                }
            }
            assert forall|p: int, k: int|
                0 <= p < after.len() && 0 <= k < after[p].children.len() implies {
                &&& p < (#[trigger] after[p].children[k]) < after.len()
                &&& after[after[p].children[k]].parent == Some(p)
            } by {}
            assert forall|p: int| 0 <= p < after.len() implies (
            #[trigger] after[p]).children.no_duplicates() by {
                if p == parent {
                    let kids = before[p].children.push(id as int);
                    assert forall|i: int, j: int|
                        0 <= i < kids.len() && 0 <= j < kids.len() && i != j implies kids[i]
                        != kids[j] by {}
                }
            }
            assert forall|c: int| 0 <= c < after.len() implies (#[trigger] after[c]).id == c by {}
        }
        id
    }
}

/// Searches the subtree of `current` for `target`, the children in order.
/// Returns the nodes on the way from `current` down to the parent of
/// `target`, and nothing where `target` is not in the subtree.
pub fn find_path(tree: &SgfTree, current: usize, target: usize) -> (res: Option<Vec<usize>>)
    requires
        tree.wf(),
        current < tree@.len(),
    ensures
        match res {
            Some(path) => in_subtree(tree@, current as int, target as int) && ancestors(
                tree@,
                target as int,
            ) == ancestors(tree@, current as int) + ints(path@),
            None => !in_subtree(tree@, current as int, target as int),
        },
    decreases tree@.len() - current,
{
    if current == target {
        let path: Vec<usize> = Vec::new();
        return Some(path);
    }
    let ghost t = tree@;
    let node = &tree.nodes[current];
    let mut k: usize = 0;
    while k < node.children.len()
        invariant
            k <= node.children.len(),
            tree.wf(),
            t == tree@,
            current < t.len(),
            node@ == t[current as int],
            current != target,
            forall|j: int|
                0 <= j < k ==> !in_subtree(t, t[current as int].children[j], target as int),
        decreases node.children.len() - k,
    {
        let child = node.children[k];
        assert(t[current as int].children[k as int] == child);
        match find_path(tree, child, target) {
            Some(below) => {
                let mut path: Vec<usize> = Vec::new();
                path.push(current);
                let mut below = below;
                path.append(&mut below);
                proof {
                    lemma_subtree_up(t, current as int, k as int, target as int);
                    lemma_ancestors_of_child(t, current as int, k as int);
                }
                return Some(path);
            },
            None => {},
        }
        k = k + 1;
    }
    proof {
        if in_subtree(t, current as int, target as int) {
            lemma_subtree_step(t, current as int, target as int);
        }
    }
    None
}

/// Returns the length of the longest way down from a node.
pub fn get_max_depth(tree: &SgfTree, node: usize) -> (longest: usize)
    requires
        tree.wf(),
        node < tree@.len(),
    ensures
        longest == height(tree@, node as int),
    decreases tree@.len() - node,
{
    let ghost t = tree@;
    let here = &tree.nodes[node];
    proof {
        lemma_children_count(t, node as int);
    }
    let total = tree.nodes.len();
    let mut longest: usize = 0;
    let mut k: usize = 0;
    while k < here.children.len()
        invariant
            k <= here.children.len(),
            tree.wf(),
            t == tree@,
            t.len() == total,
            node < t.len(),
            here@ == t[node as int],
            longest == height_upto(t, node as int, k as int),
        decreases here.children.len() - k,
    {
        let child = here.children[k];
        assert(t[node as int].children[k as int] == child);
        proof {
            lemma_height_bound(t, child as int);
        }
        let below = get_max_depth(tree, child) + 1;
        if below > longest {
            longest = below;
        }
        k = k + 1;
    }
    longest
}

/// Searches the subtree of `current` for the first node at depth `target`,
/// where `path` holds the ancestors of `current`: the children in order,
/// each child's subtree before the next child. Returns the node with its
/// ancestors. Below the wanted depth already, it finds nothing.
pub fn find_node_at_depth(tree: &SgfTree, current: usize, target: u32, path: Vec<usize>) -> (res:
    Option<(usize, Vec<usize>)>)
    requires
        tree.wf(),
        current < tree@.len(),
        ints(path@) == ancestors(tree@, current as int),
    ensures
        match res {
            Some((found, above)) => path@.len() <= target && first_at(
                tree@,
                current as int,
                (target - path@.len()) as nat,
            ) == Some(found as int) && found < tree@.len() && ints(above@) == ancestors(
                tree@,
                found as int,
            ),
            None => path@.len() > target || first_at(
                tree@,
                current as int,
                (target - path@.len()) as nat,
            ) is None,
        },
    decreases target - path@.len(),
{
    if path.len() > target as usize {
        return None;
    }
    if path.len() == target as usize {
        return Some((current, path));
    }
    let ghost t = tree@;
    let ghost levels = (target - path@.len()) as nat;
    let node = &tree.nodes[current];
    proof {
        lemma_children_count(t, current as int);
    }
    let mut k: usize = 0;
    while k < node.children.len()
        invariant
            k <= node.children.len(),
            tree.wf(),
            t == tree@,
            current < t.len(),
            node@ == t[current as int],
            node.children@.len() < t.len(),
            ints(path@) == ancestors(t, current as int),
            path@.len() < target,
            levels == target - path@.len(),
            first_below(t, current as int, levels, 0) == first_below(
                t,
                current as int,
                levels,
                k as int,
            ),
        decreases node.children.len() - k,
    {
        let child = node.children[k];
        let mut next_path = duplicate_handles(&path);
        next_path.push(current);
        proof {
            lemma_ancestors_of_child(t, current as int, k as int);
            assert(ints(next_path@) =~= ints(path@).push(current as int));
        }
        match find_node_at_depth(tree, child, target, next_path) {
            Some(result) => {
                return Some(result);
            },
            None => {},
        }
        k = k + 1;
    }
    None
}

} // verus!
