use vstd::prelude::*;
use crate::text::{text_equal, views};

verus! {

/// An XML element: its tag name, its attributes as (name, value) pairs and
/// its child nodes in document order.
pub struct Element {
    pub name: String,
    pub attributes: Vec<(String, String)>,
    pub children: Vec<Node>,
}

/// A child node of an element.
pub enum Node {
    Element(Element),
    Text(String),
    Other,
}

/// The tag name of an operator element.
pub open spec fn layer_tag() -> Seq<char> {
    seq!['l', 'a', 'y', 'e', 'r']
}

/// The attribute that names an operator's type.
pub open spec fn type_key() -> Seq<char> {
    seq!['t', 'y', 'p', 'e']
}

/// The value of the first attribute named `key`, if any.
pub open spec fn attribute_value(attrs: Seq<(String, String)>, key: Seq<char>) -> Option<Seq<char>>
    decreases attrs.len(),
{
    if attrs.len() == 0 {
        None
    } else if attrs[0].0@ == key {
        Some(attrs[0].1@)
    } else {
        attribute_value(attrs.drop_first(), key)
    }
}

/// What `e` contributes by itself: its `type` when it is a `layer` that has one.
pub open spec fn own_op(e: Element) -> Seq<Seq<char>> {
    if e.name@ == layer_tag() {
        match attribute_value(e.attributes@, type_key()) {
            Some(t) => seq![t],
            None => Seq::empty(),
        }
    } else {
        Seq::empty()
    }
}

/// The operator types under `e`, in document pre-order: the element's own
/// check first, then its children from left to right.
pub open spec fn element_ops(e: Element) -> Seq<Seq<char>>
    decreases e,
{
    own_op(e) + nodes_ops(e.children@)
}

pub open spec fn nodes_ops(s: Seq<Node>) -> Seq<Seq<char>>
    decreases s,
{
    if s.len() == 0 {
        Seq::empty()
    } else {
        node_ops(s[0]) + nodes_ops(s.drop_first())
    }
}

pub open spec fn node_ops(n: Node) -> Seq<Seq<char>>
    decreases n,
{
    match n {
        Node::Element(e) => element_ops(e),
        _ => Seq::empty(),
    }
}


/// The number of elements in `e`'s subtree, `e` included.
pub open spec fn element_size(e: Element) -> nat
    decreases e,
{
    1 + nodes_size(e.children@)
}

pub open spec fn nodes_size(s: Seq<Node>) -> nat
    decreases s,
{
    if s.len() == 0 {
        0
    } else {
        node_size(s[0]) + nodes_size(s.drop_first())
    }
}

pub open spec fn node_size(n: Node) -> nat
    decreases n,
{
    match n {
        Node::Element(e) => element_size(e),
        _ => 0,
    }
}

/// The operators still to be found under the elements of a traversal
/// stack, whose top is its last entry.
pub open spec fn pending_ops(s: Seq<&Element>) -> Seq<Seq<char>>
    decreases s.len(),
{
    if s.len() == 0 {
        Seq::empty()
    } else {
        element_ops(*s.last()) + pending_ops(s.drop_last())
    }
}

pub open spec fn pending_size(s: Seq<&Element>) -> nat
    decreases s.len(),
{
    if s.len() == 0 {
        0
    } else {
        element_size(*s.last()) + pending_size(s.drop_last())
    }
}

impl Element {
    /// The value of the first attribute named `key`.
    pub fn attribute(&self, key: &str) -> (r: Option<&String>)
        ensures
            match attribute_value(self.attributes@, key@) {
                Some(v) => r is Some && r->0@ == v,
                None => r is None,
            },
    {
        let mut i: usize = 0;
        assert(self.attributes@.skip(0) =~= self.attributes@);
        while i < self.attributes.len()
            invariant
                i <= self.attributes.len(),
                attribute_value(self.attributes@, key@)
                    == attribute_value(self.attributes@.skip(i as int), key@),
            decreases self.attributes.len() - i,
        {
            if text_equal(&self.attributes[i].0, key) {
                return Some(&self.attributes[i].1);
            }
            assert(self.attributes@.skip(i as int).drop_first() =~= self.attributes@.skip(i + 1));
            i = i + 1;
        }
        None
    }

    /// True when this element is a `layer`.
    pub fn is_layer(&self) -> (r: bool)
        ensures
            r == (self.name@ == layer_tag()),
    {
        let tag = "layer";
        proof {
            reveal_strlit("layer");
        }
        assert(tag@ =~= layer_tag());
        text_equal(&self.name, tag)
    }

    /// The operator type this element declares by itself, if any.
    pub fn operator_type(&self) -> (r: Option<&String>)
        ensures
            own_op(*self) == match r {
                Some(t) => seq![t@],
                None => Seq::<Seq<char>>::empty(),
            },
    {
        if self.is_layer() {
            let key = "type";
            proof {
                reveal_strlit("type");
            }
            assert(key@ =~= type_key());
            self.attribute(key)
        } else {
            None
        }
    }
}

proof fn lemma_nodes_skip(s: Seq<Node>, j: int)
    requires
        0 <= j < s.len(),
    ensures
        nodes_ops(s.skip(j)) == node_ops(s[j]) + nodes_ops(s.skip(j + 1)),
        nodes_size(s.skip(j)) == node_size(s[j]) + nodes_size(s.skip(j + 1)),
{
    assert(s.skip(j).drop_first() =~= s.skip(j + 1));
}

/// The `type` of every `layer` element under `root`, in document pre-order,
/// duplicates kept; a `layer` without a `type` is passed over. The walk keeps
/// its own stack, so a deep document cannot exhaust the call stack.
pub fn extract_operator_types(root: &Element) -> (r: Vec<String>)
    ensures
        views(r@) == element_ops(*root),
{
    let mut ops: Vec<String> = Vec::new();
    let mut stack: Vec<&Element> = Vec::new();
    stack.push(root);
    assert(views(ops@) =~= Seq::empty());
    assert(stack@.drop_last() =~= Seq::<&Element>::empty());
    assert(pending_ops(stack@.drop_last()) == Seq::<Seq<char>>::empty());
    assert(pending_ops(stack@) =~= element_ops(*root));
    while stack.len() > 0
        invariant
            views(ops@) + pending_ops(stack@) == element_ops(*root),
        decreases pending_size(stack@),
    {
        let e = stack.pop().unwrap();
        let ghost rest = stack@;
        let ghost before = views(ops@);
        match e.operator_type() {
            Some(t) => {
                ops.push(t.clone());
                assert(views(ops@) =~= before + own_op(*e));
            },
            None => {
                assert(views(ops@) =~= before + own_op(*e));
            },
        }
        let mut j: usize = e.children.len();
        assert(e.children@.skip(j as int) =~= Seq::<Node>::empty());
        while j > 0
            invariant
                j <= e.children.len(),
                pending_ops(stack@) == nodes_ops(e.children@.skip(j as int)) + pending_ops(rest),
                pending_size(stack@) == nodes_size(e.children@.skip(j as int)) + pending_size(rest),
            decreases j,
        {
            j = j - 1;
            proof {
                lemma_nodes_skip(e.children@, j as int);
            }
            let ghost prev = stack@;
            match &e.children[j] {
                Node::Element(c) => {
                    stack.push(c);
                    assert(stack@.drop_last() =~= prev);
                },
                _ => {},
            }
            assert(pending_ops(stack@) =~= nodes_ops(e.children@.skip(j as int)) + pending_ops(rest));
        }
        assert(e.children@.skip(0) =~= e.children@);
        assert(views(ops@) + pending_ops(stack@) =~= before + own_op(*e) + nodes_ops(e.children@) + pending_ops(rest));
    }
    ops
}

} // verus!
