//! Tree-shaped protocol messages: nodes, attribute lists and values.

use vstd::prelude::*;
use crate::jid::{JID, JidView};

verus! {

broadcast use vstd::std_specs::vec::group_vec_axioms, vstd::seq::group_seq_axioms;

/// A value carried by an attribute or by a node's content.
#[derive(Debug)]
pub enum Value {
    Null,
    Str(String),
    Bytes(Vec<u8>),
    Jid(JID),
    List(Vec<Node>),
    Node(Box<Node>),
}

/// A node: a tag, a list of attributes with unique keys in insertion
/// order, and optional content.
#[derive(Debug)]
pub struct Node {
    pub tag: String,
    pub attributes: Vec<(String, Value)>,
    pub content: Option<Value>,
}

/// Mathematical image of a `Value`.
pub enum ValueView {
    Null,
    Str(Seq<char>),
    Bytes(Seq<u8>),
    Jid(JidView),
    List(Seq<NodeView>),
    Node(Box<NodeView>),
}

/// Mathematical image of a `Node`.
pub struct NodeView {
    pub tag: Seq<char>,
    pub attributes: Seq<(Seq<char>, ValueView)>,
    pub content: Option<ValueView>,
}

/// Image of a value.
pub open spec fn value_view(v: Value) -> ValueView
    decreases v,
{
    match v {
        Value::Null => ValueView::Null,
        Value::Str(s) => ValueView::Str(s@),
        Value::Bytes(b) => ValueView::Bytes(b@),
        Value::Jid(j) => ValueView::Jid(j@),
        Value::List(nodes) => ValueView::List(nodes_view(nodes@)),
        Value::Node(n) => ValueView::Node(Box::new(node_view(*n))),
    }
}

/// Images of a sequence of nodes, elementwise.
pub open spec fn nodes_view(s: Seq<Node>) -> Seq<NodeView>
    decreases s,
{
    if s.len() <= 0 {
        Seq::empty()
    } else {
        seq![node_view(s[0])] + nodes_view(s.subrange(1, s.len() as int))
    }
}

/// Images of an attribute list, elementwise.
pub open spec fn attrs_view(s: Seq<(String, Value)>) -> Seq<(Seq<char>, ValueView)>
    decreases s,
{
    if s.len() <= 0 {
        Seq::empty()
    } else {
        seq![(s[0].0@, value_view(s[0].1))] + attrs_view(s.subrange(1, s.len() as int))
    }
}

/// Image of a node.
pub open spec fn node_view(n: Node) -> NodeView
    decreases n,
{
    NodeView {
        tag: n.tag@,
        attributes: attrs_view(n.attributes@),
        content: match n.content {
            Some(v) => Some(value_view(v)),
            None => None,
        },
    }
}

/// A node sequence's image is elementwise.
pub proof fn lemma_nodes_view(s: Seq<Node>)
    ensures
        nodes_view(s).len() == s.len(),
        forall|i: int| 0 <= i < s.len() ==> nodes_view(s)[i] == node_view(s[i]),
    decreases s.len(),
{
    if s.len() > 0 {
        lemma_nodes_view(s.subrange(1, s.len() as int));
    }
}

/// An attribute list's image is elementwise.
pub proof fn lemma_attrs_view(s: Seq<(String, Value)>)
    ensures
        attrs_view(s).len() == s.len(),
        forall|i: int|
            0 <= i < s.len() ==> attrs_view(s)[i] == (s[i].0@, value_view(s[i].1)),
    decreases s.len(),
{
    if s.len() > 0 {
        lemma_attrs_view(s.subrange(1, s.len() as int));
    }
}

/// Appending to an attribute list appends to its image.
pub proof fn lemma_attrs_view_push(s: Seq<(String, Value)>, p: (String, Value))
    ensures
        attrs_view(s.push(p)) == attrs_view(s).push((p.0@, value_view(p.1))),
    decreases s.len(),
{
    if s.len() == 0 {
        assert(s.push(p)[0] == p);
        assert(s.push(p).subrange(1, s.push(p).len() as int) =~= Seq::<(String, Value)>::empty());
        assert(attrs_view(Seq::<(String, Value)>::empty()) =~= Seq::<(Seq<char>, ValueView)>::empty());
        assert(attrs_view(s.push(p)) =~= attrs_view(s).push((p.0@, value_view(p.1))));
    } else {
        assert(s.push(p)[0] == s[0]);
        assert(s.push(p).subrange(1, s.push(p).len() as int) =~= s.subrange(
            1,
            s.len() as int,
        ).push(p));
        lemma_attrs_view_push(s.subrange(1, s.len() as int), p);
        assert(attrs_view(s.push(p)) =~= attrs_view(s).push((p.0@, value_view(p.1))));
    }
}

/// Appending to a node sequence appends to its image.
pub proof fn lemma_nodes_view_push(s: Seq<Node>, n: Node)
    ensures
        nodes_view(s.push(n)) == nodes_view(s).push(node_view(n)),
    decreases s.len(),
{
    if s.len() == 0 {
        assert(s.push(n)[0] == n);
        assert(s.push(n).subrange(1, s.push(n).len() as int) =~= Seq::<Node>::empty());
        assert(nodes_view(Seq::<Node>::empty()) =~= Seq::<NodeView>::empty());
        assert(nodes_view(s.push(n)) =~= nodes_view(s).push(node_view(n)));
    } else {
        assert(s.push(n)[0] == s[0]);
        assert(s.push(n).subrange(1, s.push(n).len() as int) =~= s.subrange(
            1,
            s.len() as int,
        ).push(n));
        lemma_nodes_view_push(s.subrange(1, s.len() as int), n);
        assert(nodes_view(s.push(n)) =~= nodes_view(s).push(node_view(n)));
    }
}

impl View for Value {
    type V = ValueView;

    open spec fn view(&self) -> ValueView {
        value_view(*self)
    }
}

impl View for Node {
    type V = NodeView;

    open spec fn view(&self) -> NodeView {
        node_view(*self)
    }
}

impl Node {
    /// Builds a node from its parts.
    pub fn new(tag: String, attributes: Vec<(String, Value)>, content: Option<Value>) -> (n: Node)
        ensures
            n@ == (NodeView {
                tag: tag@,
                attributes: attrs_view(attributes@),
                content: match content {
                    Some(v) => Some(v@),
                    None => None::<ValueView>,
                },
            }),
    {
        Node { tag, attributes, content }
    }
}

} // verus!
