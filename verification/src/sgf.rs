//! Records as text: writing a record, and reading one with the help of a
//! parser for the grammar, with repair of text that was cut short.

use vstd::prelude::*;
use vstd::string::StrSliceExecFns;
use vstd::string::StringExecFns;
use crate::error::SgfError;
use crate::text::{strip, stripped};
use crate::tree::{
    has_property,
    property_views,
    texts,
    tree_wf,
    with_child,
    with_property,
    NodeView,
    PropertyView,
    SgfProperty,
    SgfTree,
};
use crate::values::{
    properties_text,
    property_text,
    split_values,
    values_in,
    values_text,
    write_escaped,
};

verus! {

/// A property as the parser hands it out: its identifier, and its whole
/// text, identifier and bracketed values together.
pub struct RawProperty {
    pub identifier: String,
    pub text: String,
}

/// A node as the parser hands it out: its properties and its children, in
/// order.
pub struct RawNode {
    pub properties: Vec<RawProperty>,
    pub children: Vec<RawNode>,
}

/// `sgf_parse::go::Prop`, a property as the parser holds it, carried
/// through as it is.
#[verifier::external_type_specification]
#[verifier::external_body]
pub struct ExProp(sgf_parse::go::Prop);

/// A node of a tree that `sgf_parse` has parsed, held by reference. What it
/// holds is hidden from the proofs: the parser's node type is bound by a
/// trait of the parser's.
#[verifier::external_body]
struct ParsedNode<'a> {
    node: &'a sgf_parse::SgfNode<sgf_parse::go::Prop>,
}

/// Whether the parser accepts a text: whether `sgf_parse::go::parse` reads
/// it as a collection of game trees of Go.
pub uninterp spec fn parser_accepts(text: Seq<char>) -> bool;

/// The words in which the parser refuses a text: the `Display` form of the
/// error that `sgf_parse::go::parse` gives for it.
pub uninterp spec fn parser_refusal(text: Seq<char>) -> Seq<char>;

/// The trees that the parser reads from a text that it accepts: what
/// `sgf_parse::go::parse` gives for it, up to the order in which the values
/// of a property come out.
pub uninterp spec fn parser_trees(text: Seq<char>) -> Seq<RawNode>;

/// Two properties that the parser hands out say the same: they have the same
/// identifier and the same values, in whatever order.
pub open spec fn same_property(a: RawProperty, b: RawProperty) -> bool {
    &&& a.identifier@ == b.identifier@
    &&& values_in(a.text@, a.identifier@.len() as int).to_multiset() == values_in(
        b.text@,
        b.identifier@.len() as int,
    ).to_multiset()
}

/// Two nodes that the parser hands out say the same: as many properties, in
/// the same order, each saying the same as its counterpart, and as many
/// children, in the same order, each saying the same in turn.
pub open spec fn same_node(a: RawNode, b: RawNode) -> bool
    decreases a,
{
    &&& a.properties@.len() == b.properties@.len()
    &&& forall|i: int|
        0 <= i < a.properties@.len() ==> same_property(
            #[trigger] a.properties@[i],
            b.properties@[i],
        )
    &&& a.children@.len() == b.children@.len()
    &&& forall|k: int|
        0 <= k < a.children@.len() ==> same_node(#[trigger] a.children@[k], b.children@[k])
}

/// `sgf_parse::go::parse` reads a collection of game trees from a text. It
/// gives the root node of each tree, here as nodes of this library, or the
/// words of the error that stopped it. Whether it accepts a text, and the
/// words of its error, depend on the text alone. A collection that it
/// accepts has at least one tree: without one it gives the error that no
/// game tree was found. What the trees hold depends on the text alone but
/// for one thing: the parser keeps the values of some properties as a set,
/// and hands them out in the order in which the set is walked. So the trees
/// say the same as the trees named for the text, node for node and property
/// for property, with the values of a property in whatever order.
#[verifier::external_body]
fn parse_collection(text: &str) -> (res: Result<Vec<RawNode>, String>)
    ensures
        (res is Ok) == parser_accepts(text@),
        res matches Ok(trees) ==> trees@.len() > 0,
        res matches Ok(trees) ==> trees@.len() == parser_trees(text@).len() && forall|i: int|
            0 <= i < trees@.len() ==> same_node(#[trigger] trees@[i], parser_trees(text@)[i]),
        res matches Err(words) ==> words@ == parser_refusal(text@),
{
    match sgf_parse::go::parse(text) {
        Ok(trees) => Ok(trees.iter().map(|node| raw_node(&ParsedNode { node })).collect()),
        Err(error) => Err(error.to_string()),
    }
}

/// `SgfProp::identifier` and the `Display` form of `sgf_parse::go::Prop`,
/// side by side as a property of this library. Nothing is claimed of
/// either text.
#[verifier::external_body]
fn raw_property(property: &sgf_parse::go::Prop) -> RawProperty {
    RawProperty {
        identifier: sgf_parse::SgfProp::identifier(property),
        text: property.to_string(),
    }
}

/// The `properties` and `children` of a node of `sgf_parse`, walked to give
/// the parsed node as a node of this library: each property and each child
/// in its place, nothing left out and nothing added. Nothing is claimed of
/// what the node holds.
#[verifier::external_body]
fn raw_node(parsed: &ParsedNode) -> RawNode {
    RawNode {
        properties: parsed.node.properties().map(raw_property).collect(),
        children: parsed.node.children().map(|node| raw_node(&ParsedNode { node })).collect(),
    }
}

/// The text of a record made ready for reading: without white space around
/// it, then without NUL characters around what is left, then without white
/// space around that.
pub open spec fn cleaned(s: Seq<char>) -> Seq<char> {
    stripped(stripped(stripped(s, false), true), false)
}

/// `n` times the same character.
pub open spec fn repeated(c: char, n: nat) -> Seq<char> {
    Seq::new(n, |i: int| c)
}

/// A text that was cut short, closed again: with closing brackets and then
/// closing parentheses after it.
pub open spec fn repaired(text: Seq<char>, brackets: nat, parens: nat) -> Seq<char> {
    text + repeated(']', brackets) + repeated(')', parens)
}

/// The properties that the parser hands out, with the values read from the
/// text of each.
pub open spec fn raw_properties(properties: Seq<RawProperty>) -> Seq<PropertyView> {
    properties.map_values(
        |p: RawProperty|
            PropertyView {
                identifier: p.identifier@,
                values: values_in(p.text@, p.identifier@.len() as int),
            },
    )
}

/// The nodes below node `c` of the record are the nodes below `raw`: as
/// many children, in the same order, each with the properties of its
/// counterpart and the same below it in turn.
pub open spec fn grafted(t: Seq<NodeView>, c: int, raw: RawNode) -> bool
    decreases raw,
{
    &&& t[c].children.len() == raw.children@.len()
    &&& forall|k: int|
        0 <= k < raw.children@.len() ==> {
            &&& c < (#[trigger] t[c].children[k]) < t.len()
            &&& t[t[c].children[k]].properties == raw_properties(raw.children@[k].properties@)
            &&& grafted(t, t[c].children[k], raw.children@[k])
        }
}

/// The record holds the parsed tree: its root has the properties of `raw`,
/// and the nodes below it are the nodes below `raw`.
pub open spec fn holds(t: Seq<NodeView>, raw: RawNode) -> bool {
    t[0].properties == raw_properties(raw.properties@) && grafted(t, 0, raw)
}

/// The text of the first `k` children of a node, each in its own
/// parentheses.
pub open spec fn children_text(t: Seq<NodeView>, c: int, k: int) -> Seq<char>
    decreases t.len() - c, k,
{
    if 0 <= c < t.len() && 0 < k <= t[c].children.len() {
        let child = t[c].children[k - 1];
        let inner = if c < child < t.len() {
            node_text(t, child)
        } else {
            Seq::empty()
        };
        children_text(t, c, k - 1) + seq!['('] + inner + seq![')']
    } else {
        Seq::empty()
    }
}

/// The text of a node and all below it: a semicolon, the node's properties,
/// and then its only child as it is, or each of its children in its own
/// parentheses.
pub open spec fn node_text(t: Seq<NodeView>, c: int) -> Seq<char>
    decreases t.len() - c, t.len() + 1,
{
    if 0 <= c < t.len() && t[c].children.len() <= t.len() {
        let below = if t[c].children.len() == 1 {
            if c < t[c].children[0] < t.len() {
                node_text(t, t[c].children[0])
            } else {
                Seq::empty()
            }
        } else {
            children_text(t, c, t[c].children.len() as int)
        };
        seq![';'] + properties_text(t[c].properties) + below
    } else {
        Seq::empty()
    }
}

/// The text of a record: its root and all below it, in parentheses.
pub open spec fn record_text(t: Seq<NodeView>) -> Seq<char> {
    seq!['('] + node_text(t, 0) + seq![')']
}

/// Returns the text with closing brackets and then closing parentheses
/// after it.
pub fn repair_candidate(text: &str, brackets: usize, parens: usize) -> (attempt: String)
    ensures
        attempt@ == repaired(text@, brackets as nat, parens as nat),
{
    let mut attempt = String::from_str(text);
    let mut i: usize = 0;
    while i < brackets
        invariant
            i <= brackets,
            attempt@ == text@ + repeated(']', i as nat),
        decreases brackets - i,
    {
        attempt.push(']');
        i = i + 1;
    }
    let mut k: usize = 0;
    proof {
        assert(attempt@ + repeated(')', 0) =~= attempt@);
    }
    while k < parens
        invariant
            k <= parens,
            attempt@ == text@ + repeated(']', brackets as nat) + repeated(')', k as nat),
        decreases parens - k,
    {
        attempt.push(')');
        assert(attempt@ =~= text@ + repeated(']', brackets as nat) + repeated(
            ')',
            (k + 1) as nat,
        ));
        k = k + 1;
    }
    attempt
}

/// Reads the values of each property that the parser handed out.
pub fn interpret(properties: &Vec<RawProperty>) -> (read: Vec<SgfProperty>)
    ensures
        property_views(read@) == raw_properties(properties@),
{
    let mut read: Vec<SgfProperty> = Vec::new();
    let mut i: usize = 0;
    while i < properties.len()
        invariant
            i <= properties.len(),
            property_views(read@) == raw_properties(properties@).take(i as int),
        decreases properties.len() - i,
    {
        let raw = &properties[i];
        let skip = raw.identifier.as_str().unicode_len();
        let values = split_values(raw.text.as_str(), skip);
        let property = SgfProperty { identifier: raw.identifier.clone(), values };
        read.push(property);
        assert(property_views(read@) =~= raw_properties(properties@).take(i as int).push(
            property@,
        ));
        i = i + 1;
    }
    read
}

/// Where the parser hands out every property as it is written, reading
/// the properties gives back the properties that were written.
pub proof fn lemma_properties_read_back(raw: Seq<RawProperty>, written: Seq<PropertyView>)
    requires
        raw.len() == written.len(),
        forall|i: int|
            0 <= i < raw.len() ==> (#[trigger] raw[i]).identifier@ == written[i].identifier
                && raw[i].text@ == property_text(written[i]),
    ensures
        raw_properties(raw) == written,
{
    assert forall|i: int| 0 <= i < raw.len() implies raw_properties(raw)[i] == written[i] by {
        crate::values::lemma_values_read_back(written[i]);
    }
}

/// Node `c` of one record and node `d` of another hold the same: the same
/// properties, and the same below each child in turn.
pub open spec fn same_record(t: Seq<NodeView>, c: int, u: Seq<NodeView>, d: int) -> bool
    decreases t.len() - c,
{
    &&& t[c].properties == u[d].properties
    &&& t[c].children.len() == u[d].children.len()
    &&& forall|k: int|
        0 <= k < t[c].children.len() && c < (#[trigger] t[c].children[k]) < t.len()
            ==> same_record(t, t[c].children[k], u, u[d].children[k])
}

/// The parsed node gives node `c` of the record as it is written: each
/// property with its identifier and its written text, and each child in
/// turn.
pub open spec fn renders(raw: RawNode, t: Seq<NodeView>, c: int) -> bool
    decreases raw,
{
    &&& raw.properties@.len() == t[c].properties.len()
    &&& forall|i: int|
        0 <= i < raw.properties@.len() ==> (#[trigger] raw.properties@[i]).identifier@
            == t[c].properties[i].identifier && raw.properties@[i].text@ == property_text(
            t[c].properties[i],
        )
    &&& raw.children@.len() == t[c].children.len()
    &&& forall|k: int|
        0 <= k < raw.children@.len() ==> renders(
            #[trigger] raw.children@[k],
            t,
            t[c].children[k],
        )
}

/// A record that is read from what gives another record as it is written
/// holds the same as that record: provided the parser hands back the tree
/// that the text writes, reading a written record reproduces its
/// properties and its shape.
pub proof fn lemma_record_reads_back(
    raw: RawNode,
    t: Seq<NodeView>,
    c: int,
    u: Seq<NodeView>,
    d: int,
)
    requires
        tree_wf(t),
        0 <= c < t.len(),
        renders(raw, t, c),
        u[d].properties == raw_properties(raw.properties@),
        grafted(u, d, raw),
    ensures
        same_record(t, c, u, d),
    decreases raw,
{
    lemma_properties_read_back(raw.properties@, t[c].properties);
    assert forall|k: int|
        0 <= k < t[c].children.len() && c < (#[trigger] t[c].children[k])
            < t.len() implies same_record(
        t,
        t[c].children[k],
        u,
        u[d].children[k],
    ) by {
        lemma_record_reads_back(raw.children@[k], t, t[c].children[k], u, u[d].children[k]);
    }
}

/// No property of the record has more than one value.
pub open spec fn single_valued(t: Seq<NodeView>) -> bool {
    forall|c: int, i: int|
        0 <= c < t.len() && 0 <= i < t[c].properties.len() ==> (
        #[trigger] t[c].properties[i]).values.len() <= 1
}

/// A record stays one without a property of more than one value when a
/// node with such properties is added to it.
pub proof fn lemma_single_valued_child(
    t: Seq<NodeView>,
    parent: int,
    properties: Seq<PropertyView>,
)
    requires
        single_valued(t),
        0 <= parent < t.len(),
        forall|i: int| 0 <= i < properties.len() ==> (#[trigger] properties[i]).values.len() <= 1,
    ensures
        single_valued(with_child(t, parent, properties)),
{
    let u = with_child(t, parent, properties);
    crate::tree::lemma_with_child(t, parent, properties);
    assert forall|c: int, i: int|
        0 <= c < u.len() && 0 <= i < u[c].properties.len() implies (
    #[trigger] u[c].properties[i]).values.len() <= 1 by {
        if c < t.len() {
            assert(u[c].properties == t[c].properties);
            assert(t[c].properties[i].values.len() <= 1);
        }
    }
}

/// A record stays one without a property of more than one value when a
/// property of a node is given a single value.
pub proof fn lemma_single_valued_property(
    t: Seq<NodeView>,
    c: int,
    identifier: Seq<char>,
    value: Seq<char>,
)
    requires
        single_valued(t),
        0 <= c < t.len(),
    ensures
        single_valued(
            t.update(
                c,
                NodeView {
                    properties: with_property(t[c].properties, identifier, value),
                    ..t[c]
                },
            ),
        ),
{
    let written = with_property(t[c].properties, identifier, value);
    let u = t.update(c, NodeView { properties: written, ..t[c] });
    if has_property(t[c].properties, identifier) {
        crate::tree::lemma_first_property(t[c].properties, identifier);
    }
    assert forall|n: int, i: int|
        0 <= n < u.len() && 0 <= i < u[n].properties.len() implies (
    #[trigger] u[n].properties[i]).values.len() <= 1 by {
        if n == c {
            if i < t[c].properties.len() {
                assert(t[c].properties[i].values.len() <= 1);
            }
        } else {
            assert(t[n].properties[i].values.len() <= 1);
        }
    }
}

/// The same values in whatever order are the same values in the same
/// order, where there is one at most.
proof fn lemma_one_value(a: Seq<Seq<char>>, b: Seq<Seq<char>>)
    requires
        a.to_multiset() == b.to_multiset(),
        b.len() <= 1,
    ensures
        a == b,
{
    a.to_multiset_ensures();
    b.to_multiset_ensures();
    if b.len() == 1 {
        assert(b.contains(b[0]));
        assert(b.to_multiset().count(b[0]) > 0);
        assert(a.to_multiset().count(b[0]) > 0);
        assert(a.contains(b[0]));
        let k = choose|k: int| 0 <= k < a.len() && a[k] == b[0];
        assert(a[0] == b[0]);
    }
    assert(a =~= b);
}

/// A record that is read from a tree which says the same as the tree that
/// gives another record as it is written holds the same as that record,
/// where no property has more than one value.
pub proof fn lemma_read_record_is_written(
    raw: RawNode,
    parsed: RawNode,
    t: Seq<NodeView>,
    c: int,
    u: Seq<NodeView>,
    d: int,
)
    requires
        tree_wf(t),
        0 <= c < t.len(),
        single_valued(t),
        renders(parsed, t, c),
        same_node(raw, parsed),
        u[d].properties == raw_properties(raw.properties@),
        grafted(u, d, raw),
    ensures
        same_record(t, c, u, d),
    decreases raw,
{
    let read = raw_properties(raw.properties@);
    assert forall|i: int| 0 <= i < read.len() implies read[i] == t[c].properties[i] by {
        let written = t[c].properties[i];
        assert(same_property(raw.properties@[i], parsed.properties@[i]));
        crate::values::lemma_values_read_back(written);
        assert(written.values.len() <= 1);
        lemma_one_value(read[i].values, written.values);
    }
    assert(read =~= t[c].properties);
    assert forall|k: int|
        0 <= k < t[c].children.len() && c < (#[trigger] t[c].children[k])
            < t.len() implies same_record(
        t,
        t[c].children[k],
        u,
        u[d].children[k],
    ) by {
        assert(same_node(raw.children@[k], parsed.children@[k]));
        assert(renders(parsed.children@[k], t, t[c].children[k]));
        assert(d < u[d].children[k] < u.len());
        lemma_read_record_is_written(
            raw.children@[k],
            parsed.children@[k],
            t,
            t[c].children[k],
            u,
            u[d].children[k],
        );
    }
}

/// Reading a written record reproduces it, provided the parser reads the
/// text as it is written: where the first tree that the parser reads from a
/// text gives a record as it is written, and no property of the record has
/// more than one value, a record that holds that tree holds the same as the
/// record, node for node, with the same properties and the same children in
/// the same order.
pub proof fn lemma_first_tree_reads_back(t: Seq<NodeView>, u: Seq<NodeView>, text: Seq<char>)
    requires
        tree_wf(t),
        single_valued(t),
        renders(parser_trees(text)[0], t, 0),
        holds_first_tree(u, text),
    ensures
        same_record(t, 0, u, 0),
{
    let raw = choose|raw: RawNode| #[trigger]
        holds(u, raw) && same_node(raw, parser_trees(text)[0]);
    lemma_read_record_is_written(raw, parser_trees(text)[0], t, 0, u, 0);
}

/// What is below a node stays below it while the nodes from it on stay as
/// they are.
proof fn lemma_grafted_frame(t: Seq<NodeView>, u: Seq<NodeView>, c: int, raw: RawNode)
    requires
        grafted(t, c, raw),
        0 <= c < t.len() <= u.len(),
        forall|i: int| c <= i < t.len() ==> #[trigger] u[i] == t[i],
    ensures
        grafted(u, c, raw),
    decreases raw,
{
    assert forall|k: int| 0 <= k < raw.children@.len() implies {
        &&& c < (#[trigger] u[c].children[k]) < u.len()
        &&& u[u[c].children[k]].properties == raw_properties(raw.children@[k].properties@)
        &&& grafted(u, u[c].children[k], raw.children@[k])
    } by {
        let child = t[c].children[k];
        lemma_grafted_frame(t, u, child, raw.children@[k]);
    }
}

/// Adds below node `at`, which has no children yet, all that is below
/// `raw`.
pub fn graft(tree: &mut SgfTree, at: usize, raw: &RawNode)
    requires
        old(tree).wf(),
        at < old(tree)@.len(),
        old(tree)@[at as int].children.len() == 0,
    ensures
        final(tree).wf(),
        old(tree)@.len() <= final(tree)@.len(),
        forall|c: int| 0 <= c < old(tree)@.len() && c != at ==> final(tree)@[c] == old(tree)@[c],
        final(tree)@[at as int].properties == old(tree)@[at as int].properties,
        final(tree)@[at as int].parent == old(tree)@[at as int].parent,
        final(tree)@[at as int].id == old(tree)@[at as int].id,
        grafted(final(tree)@, at as int, *raw),
    decreases raw,
{
    let ghost start = tree@;
    let mut k: usize = 0;
    while k < raw.children.len()
        invariant
            k <= raw.children.len(),
            tree.wf(),
            start == old(tree)@,
            at < start.len() <= tree@.len(),
            forall|c: int| 0 <= c < start.len() && c != at ==> tree@[c] == start[c],
            tree@[at as int].properties == start[at as int].properties,
            tree@[at as int].parent == start[at as int].parent,
            tree@[at as int].id == start[at as int].id,
            tree@[at as int].children.len() == k,
            forall|j: int|
                0 <= j < k ==> {
                    &&& at < (#[trigger] tree@[at as int].children[j]) < tree@.len()
                    &&& tree@[tree@[at as int].children[j]].properties == raw_properties(
                        raw.children@[j].properties@,
                    )
                    &&& grafted(tree@, tree@[at as int].children[j], raw.children@[j])
                },
        decreases raw.children.len() - k,
    {
        let child = &raw.children[k];
        let ghost before = tree@;
        let properties = interpret(&child.properties);
        let ghost views = property_views(properties@);
        let id = tree.add_child(at, properties);
        proof {
            crate::tree::lemma_with_child(before, at as int, views);
        }
        graft(tree, id, child);
        proof {
            let after = tree@;
            assert forall|j: int| 0 <= j < k + 1 implies {
                &&& at < (#[trigger] after[at as int].children[j]) < after.len()
                &&& after[after[at as int].children[j]].properties == raw_properties(
                    raw.children@[j].properties@,
                )
                &&& grafted(after, after[at as int].children[j], raw.children@[j])
            } by {
                if j < k {
                    let earlier = before[at as int].children[j];
                    assert forall|i: int| earlier <= i < before.len() implies #[trigger] after[i]
                        == before[i] by {}
                    lemma_grafted_frame(before, after, earlier, raw.children@[j]);
                }
            }
        }
        k = k + 1;
    }
}

/// Builds the record that holds a parsed tree.
pub fn convert_node(raw: &RawNode) -> (tree: SgfTree)
    ensures
        tree.wf(),
        holds(tree@, *raw),
{
    let mut tree = SgfTree::new(interpret(&raw.properties));
    graft(&mut tree, 0, raw);
    tree
}

/// Writes a property after the text.
fn write_property(property: &SgfProperty, out: &mut String)
    ensures
        final(out)@ == old(out)@ + property_text(property@),
{
    out.append(property.identifier.as_str());
    let ghost start = out@;
    let ghost values = texts(property.values@);
    let mut i: usize = 0;
    while i < property.values.len()
        invariant
            i <= property.values.len(),
            values == texts(property.values@),
            out@ == start + values_text(values.take(i as int)),
        decreases property.values.len() - i,
    {
        out.push('[');
        write_escaped(out, property.values[i].as_str());
        out.push(']');
        proof {
            assert(values.take(i + 1).drop_last() =~= values.take(i as int));
        }
        i = i + 1;
    }
    proof {
        assert(values.take(property.values.len() as int) =~= values);
    }
}

/// Writes a node and all below it after the text.
pub fn serialize_node(tree: &SgfTree, node: usize, out: &mut String)
    requires
        tree.wf(),
        node < tree@.len(),
    ensures
        final(out)@ == old(out)@ + node_text(tree@, node as int),
    decreases tree@.len() - node,
{
    let ghost t = tree@;
    let here = tree.get(node);
    proof {
        crate::tree::lemma_children_count(t, node as int);
    }
    out.push(';');
    let ghost start = out@;
    let ghost views = t[node as int].properties;
    let mut i: usize = 0;
    while i < here.properties.len()
        invariant
            i <= here.properties.len(),
            here@ == t[node as int],
            views == t[node as int].properties,
            out@ == start + properties_text(views.take(i as int)),
        decreases here.properties.len() - i,
    {
        write_property(&here.properties[i], out);
        proof {
            assert(views.take(i + 1).drop_last() =~= views.take(i as int));
        }
        i = i + 1;
    }
    proof {
        assert(views.take(here.properties.len() as int) =~= views);
    }
    let ghost written = out@;
    if here.children.len() == 1 {
        let child = here.children[0];
        assert(t[node as int].children[0] == child);
        serialize_node(tree, child, out);
    } else {
        let mut k: usize = 0;
        while k < here.children.len()
            invariant
                k <= here.children.len(),
                tree.wf(),
                t == tree@,
                node < t.len(),
                here@ == t[node as int],
                out@ == written + children_text(t, node as int, k as int),
            decreases here.children.len() - k,
        {
            let child = here.children[k];
            assert(t[node as int].children[k as int] == child);
            out.push('(');
            serialize_node(tree, child, out);
            out.push(')');
            k = k + 1;
        }
    }
}

/// Returns the text of a record.
pub fn write_record(tree: &SgfTree) -> (out: String)
    requires
        tree.wf(),
    ensures
        out@ == record_text(tree@),
{
    let mut out = String::new();
    out.push('(');
    serialize_node(tree, 0, &mut out);
    out.push(')');
    out
}

/// Builds the record of the first of the parsed trees, if there is one.
pub fn first_tree(trees: &Vec<RawNode>) -> (tree: Option<SgfTree>)
    ensures
        match tree {
            Some(t) => trees@.len() > 0 && t.wf() && holds(t@, trees@[0]),
            None => trees@.len() == 0,
        },
{
    if trees.len() > 0 {
        Some(convert_node(&trees[0]))
    } else {
        None
    }
}

/// Builds the record of what the parser gave for a text: of the first of
/// the trees, or the error that there is none.
pub fn read_parsed(trees: &Vec<RawNode>) -> (res: Result<SgfTree, SgfError>)
    ensures
        match res {
            Ok(t) => trees@.len() > 0 && t.wf() && holds(t@, trees@[0]),
            Err(error) => trees@.len() == 0 && (error matches SgfError::ParseError { message }
                && message@ == "No tree found in SGF"@),
        },
{
    match first_tree(trees) {
        Some(tree) => Ok(tree),
        None => Err(SgfError::ParseError { message: String::from_str("No tree found in SGF") }),
    }
}

/// The record holds the first of the trees that the parser reads from the
/// text: node for node and property for property, with the values of the
/// properties that the parser keeps as sets in the order in which they came
/// out.
pub open spec fn holds_first_tree(t: Seq<NodeView>, text: Seq<char>) -> bool {
    exists|raw: RawNode| #[trigger] holds(t, raw) && same_node(raw, parser_trees(text)[0])
}

/// The texts that are handed to the parser for a text, in their order: the
/// text itself first, then the text closed again with no, one or two
/// closing brackets, and for each of these with one to nine closing
/// parentheses.
pub open spec fn candidate(text: Seq<char>, n: nat) -> Seq<char> {
    if n == 0 {
        text
    } else {
        repaired(text, ((n - 1) / 9) as nat, ((n - 1) % 9 + 1) as nat)
    }
}

/// The number of the last candidate.
pub open spec fn last_candidate() -> nat {
    27
}

/// The first candidate from the `n`-th on that the parser accepts, if it
/// accepts any.
pub open spec fn first_accepted_from(text: Seq<char>, n: nat) -> Option<nat>
    decreases 28 - n,
{
    if n > last_candidate() {
        None
    } else if parser_accepts(candidate(text, n)) {
        Some(n)
    } else {
        first_accepted_from(text, n + 1)
    }
}

/// The first candidate that the parser accepts, if it accepts any.
pub open spec fn first_accepted(text: Seq<char>) -> Option<nat> {
    first_accepted_from(text, 0)
}

/// The first accepted candidate is accepted and none before it is; where
/// there is none, no candidate is accepted.
pub proof fn lemma_first_accepted(text: Seq<char>, n: nat)
    ensures
        match first_accepted_from(text, n) {
            Some(k) => n <= k <= last_candidate() && parser_accepts(candidate(text, k))
                && forall|m: nat| n <= m < k ==> !parser_accepts(#[trigger] candidate(text, m)),
            None => forall|m: nat|
                n <= m <= last_candidate() ==> !parser_accepts(#[trigger] candidate(text, m)),
        },
    decreases 28 - n,
{
    if n <= last_candidate() && !parser_accepts(candidate(text, n)) {
        lemma_first_accepted(text, n + 1);
    }
}

/// A text that the parser accepts is read as it is. A text that it refuses
/// is read exactly where one of its repairs is accepted.
pub proof fn lemma_repair(text: Seq<char>)
    ensures
        parser_accepts(text) ==> first_accepted(text) == Some(0nat),
        !parser_accepts(text) ==> (first_accepted(text) is Some <==> exists|b: nat, p: nat|
            b < 3 && 1 <= p < 10 && parser_accepts(#[trigger] repaired(text, b, p))),
{
    lemma_first_accepted(text, 0);
    if !parser_accepts(text) {
        if first_accepted(text) is Some {
            let k = first_accepted(text)->0;
            assert(parser_accepts(repaired(text, ((k - 1) / 9) as nat, ((k - 1) % 9 + 1) as nat)));
        }
        if exists|b: nat, p: nat|
            b < 3 && 1 <= p < 10 && parser_accepts(#[trigger] repaired(text, b, p)) {
            let (b, p) = choose|b: nat, p: nat|
                b < 3 && 1 <= p < 10 && parser_accepts(#[trigger] repaired(text, b, p));
            let m = (9 * b + p) as nat;
            assert(candidate(text, m) == repaired(text, b, p));
        }
    }
}

/// Reads a record from a text, which is repaired where it was cut short.
///
/// The candidates are handed to the parser in their order, and the first
/// that it accepts is taken: the record of its first tree is returned, with
/// the number of the candidate. Where the parser accepts none, the error
/// carries the words in which it refused the text itself.
pub fn parse_repairing(text: &str) -> (res: Result<(SgfTree, usize), SgfError>)
    ensures
        match first_accepted(text@) {
            Some(n) => res matches Ok(found) && found.1 == n && found.0.wf() && holds_first_tree(
                found.0@,
                candidate(text@, n),
            ),
            None => res matches Err(SgfError::ParseError { message }) && message@
                == parser_refusal(text@),
        },
{
    let ghost t = text@;
    let refusal = match parse_collection(text) {
        Ok(trees) => {
            return match read_parsed(&trees) {
                Ok(tree) => {
                    assert(holds(tree@, trees@[0]) && same_node(trees@[0], parser_trees(t)[0]));
                    Ok((tree, 0))
                },
                Err(error) => Err(error),
            };
        },
        Err(words) => words,
    };
    let mut brackets: usize = 0;
    while brackets < 3
        invariant
            brackets <= 3,
            t == text@,
            refusal@ == parser_refusal(t),
            first_accepted(t) == first_accepted_from(t, (1 + 9 * brackets) as nat),
        decreases 3 - brackets,
    {
        let mut parens: usize = 1;
        while parens < 10
            invariant
                1 <= parens <= 10,
                brackets < 3,
                t == text@,
                first_accepted(t) == first_accepted_from(t, (9 * brackets + parens) as nat),
            decreases 10 - parens,
        {
            let number = 9 * brackets + parens;
            let attempt = repair_candidate(text, brackets, parens);
            assert(attempt@ == candidate(t, number as nat));
            match parse_collection(attempt.as_str()) {
                Ok(trees) => {
                    match first_tree(&trees) {
                        Some(tree) => {
                            assert(holds(tree@, trees@[0]) && same_node(
                                trees@[0],
                                parser_trees(candidate(t, number as nat))[0],
                            ));
                            return Ok((tree, number));
                        },
                        None => {},
                    }
                },
                Err(_) => {},
            }
            parens = parens + 1;
        }
        brackets = brackets + 1;
    }
    Err(SgfError::ParseError { message: refusal })
}

/// Reads a record from its text.
///
/// The text is read without the white space and NUL characters around it.
/// Where the parser refuses it, it is read as a text that was cut short:
/// see [`parse_repairing`]. An empty text is refused without the parser.
pub fn parse_sgf(sgf_content: String) -> (res: Result<SgfTree, SgfError>)
    ensures
        cleaned(sgf_content@).len() == 0 ==> (res matches Err(SgfError::ParseError { message })
            && message@ == "Empty SGF content"@),
        cleaned(sgf_content@).len() > 0 ==> match first_accepted(cleaned(sgf_content@)) {
            Some(n) => res matches Ok(tree) && tree.wf() && holds_first_tree(
                tree@,
                candidate(cleaned(sgf_content@), n),
            ),
            None => res matches Err(SgfError::ParseError { message }) && message@
                == parser_refusal(cleaned(sgf_content@)),
        },
{
    let trimmed = strip(strip(strip(sgf_content.as_str(), false), true), false);
    if trimmed.unicode_len() == 0 {
        return Err(SgfError::ParseError { message: String::from_str("Empty SGF content") });
    }
    match parse_repairing(trimmed) {
        Ok(found) => Ok(found.0),
        Err(error) => Err(error),
    }
}

} // verus!
