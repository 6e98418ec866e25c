//! The document tree: named elements with string attributes and ordered
//! children.
//!
//! An element's attributes are a map from keys to values, without order. They
//! are kept in a vector in which no key occurs twice: that is what makes an
//! element well formed, and what every function here keeps. Where a vector
//! built by hand does hold a key twice, the first occurrence counts.

use vstd::pervasive::unreached;
use vstd::prelude::*;

verus! {

/// One `key="value"` pair of an element.
#[derive(Debug, PartialEq, Eq)]
pub struct Attribute {
    pub key: String,
    pub value: String,
}

/// A child of an element. Everything but `Element` is content that the
/// library carries along and never looks into.
#[derive(Debug, PartialEq, Eq)]
pub enum Node {
    Element(Element),
    Text(String),
    Comment(String),
    CData(String),
    ProcessingInstruction(String, Option<String>),
}

/// A named element with attributes and ordered children.
#[derive(Debug, PartialEq, Eq)]
pub struct Element {
    pub name: String,
    pub attributes: Vec<Attribute>,
    pub children: Vec<Node>,
}

/// What an element is in contracts.
pub struct ElementView {
    pub name: Seq<char>,
    pub attributes: Map<Seq<char>, Seq<char>>,
    pub children: Seq<NodeView>,
}

/// What a node is in contracts.
pub enum NodeView {
    Element(ElementView),
    Text(Seq<char>),
    Comment(Seq<char>),
    CData(Seq<char>),
    ProcessingInstruction(Seq<char>, Option<Seq<char>>),
}

/// The map held by the first `n` attributes of `attrs`: a key maps to the
/// value of its first occurrence.
pub open spec fn attributes_upto(attrs: Seq<Attribute>, n: nat) -> Map<Seq<char>, Seq<char>>
    decreases n,
{
    if n == 0 {
        Map::empty()
    } else {
        let rest = attributes_upto(attrs, (n - 1) as nat);
        let last = attrs[n - 1];
        if rest.contains_key(last.key@) {
            rest
        } else {
            rest.insert(last.key@, last.value@)
        }
    }
}

/// The map held by a vector of attributes.
pub open spec fn attribute_map(attrs: Seq<Attribute>) -> Map<Seq<char>, Seq<char>> {
    attributes_upto(attrs, attrs.len())
}

/// Whether no key occurs twice among the attributes.
pub open spec fn keys_distinct(attrs: Seq<Attribute>) -> bool {
    forall|i: int, j: int|
        0 <= i < j < attrs.len() ==> (#[trigger] attrs[i]).key@ != (#[trigger] attrs[j]).key@
}

/// Whether a node is well formed: an element is where it is well formed
/// itself, any other node always.
pub open spec fn node_well_formed(node: Node) -> bool
    decreases node,
{
    match node {
        Node::Element(e) => element_well_formed(e),
        _ => true,
    }
}

/// Whether an element is well formed: no key occurs twice among its
/// attributes, and its children are well formed.
pub open spec fn element_well_formed(element: Element) -> bool
    decreases element,
{
    &&& keys_distinct(element.attributes@)
    &&& forall|i: int|
        0 <= i < element.children@.len() ==> node_well_formed(#[trigger] element.children@[i])
}

/// What a node is in contracts: the same node, with strings as sequences
/// of characters.
pub open spec fn node_view(node: Node) -> NodeView
    decreases node,
{
    match node {
        Node::Element(e) => NodeView::Element(element_view(e)),
        Node::Text(s) => NodeView::Text(s@),
        Node::Comment(s) => NodeView::Comment(s@),
        Node::CData(s) => NodeView::CData(s@),
        Node::ProcessingInstruction(name, data) => NodeView::ProcessingInstruction(
            name@,
            match data {
                Some(d) => Some(d@),
                None => None,
            },
        ),
    }
}

/// What an element is in contracts: its name, the map that its attributes
/// hold, and its children in their order.
pub open spec fn element_view(element: Element) -> ElementView
    decreases element,
{
    ElementView {
        name: element.name@,
        attributes: attribute_map(element.attributes@),
        children: Seq::new(
            element.children@.len(),
            |i: int|
                if 0 <= i < element.children@.len() {
                    node_view(element.children@[i])
                } else {
                    NodeView::Text(Seq::empty())
                },
        ),
    }
}

impl View for Node {
    type V = NodeView;

    open spec fn view(&self) -> NodeView {
        node_view(*self)
    }
}

impl View for Element {
    type V = ElementView;

    open spec fn view(&self) -> ElementView {
        element_view(*self)
    }
}

impl NodeView {
    /// Whether the node is an element called `name`.
    pub open spec fn is_named(self, name: Seq<char>) -> bool {
        self matches NodeView::Element(e) && e.name == name
    }

    /// The element that the node is; meaningful for element nodes only.
    pub open spec fn element(self) -> ElementView {
        match self {
            NodeView::Element(e) => e,
            _ => arbitrary(),
        }
    }
}

impl ElementView {
    /// The value of attribute `key`, if the element has it.
    pub open spec fn attribute(self, key: Seq<char>) -> Option<Seq<char>> {
        if self.attributes.contains_key(key) {
            Some(self.attributes[key])
        } else {
            None
        }
    }

    /// The element with attribute `key` set to `value`.
    pub open spec fn with_attribute(self, key: Seq<char>, value: Seq<char>) -> ElementView {
        ElementView { attributes: self.attributes.insert(key, value), ..self }
    }

    /// The element with child `at` replaced by the element `child`.
    pub open spec fn with_child(self, at: int, child: ElementView) -> ElementView {
        ElementView { children: self.children.update(at, NodeView::Element(child)), ..self }
    }
}

/// The position of the first child from `from` on that is an element called
/// `name`.
pub open spec fn child_position(children: Seq<NodeView>, name: Seq<char>, from: int) -> Option<int>
    decreases children.len() - from,
{
    if from < 0 || from >= children.len() {
        None
    } else if children[from].is_named(name) {
        Some(from)
    } else {
        child_position(children, name, from + 1)
    }
}

/// `child_position` returns the least position that holds an element of that
/// name, and `None` only where there is none.
pub proof fn law_child_position(children: Seq<NodeView>, name: Seq<char>, from: int)
    requires
        0 <= from,
    ensures
        match child_position(children, name, from) {
            Some(at) => from <= at < children.len() && children[at].is_named(name) && forall|j: int|
                from <= j < at ==> !(#[trigger] children[j]).is_named(name),
            None => forall|j: int|
                from <= j < children.len() ==> !(#[trigger] children[j]).is_named(name),
        },
    decreases children.len() - from,
{
    if from < children.len() && !children[from].is_named(name) {
        law_child_position(children, name, from + 1);
    }
}

/// A key that the first `n` attributes hold is held by the first `m >= n`
/// with the same value.
pub proof fn lemma_attributes_upto_grows(attrs: Seq<Attribute>, n: nat, m: nat, key: Seq<char>)
    requires
        n <= m,
        attributes_upto(attrs, n).contains_key(key),
    ensures
        attributes_upto(attrs, m).contains_key(key),
        attributes_upto(attrs, m)[key] == attributes_upto(attrs, n)[key],
    decreases m - n,
{
    if n < m {
        lemma_attributes_upto_grows(attrs, n, (m - 1) as nat, key);
    }
}

/// The first `n` attributes hold `key` only where one of them carries it.
pub proof fn lemma_attributes_upto_absent(attrs: Seq<Attribute>, n: nat, key: Seq<char>)
    requires
        n <= attrs.len(),
        forall|j: int| 0 <= j < n ==> (#[trigger] attrs[j]).key@ != key,
    ensures
        !attributes_upto(attrs, n).contains_key(key),
    decreases n,
{
    if n > 0 {
        lemma_attributes_upto_absent(attrs, (n - 1) as nat, key);
    }
}

/// Where no key occurs twice, the map holds every attribute of the vector
/// with its own value: none is hidden behind another.
pub proof fn law_distinct_keys_all_held(attrs: Seq<Attribute>, at: int)
    requires
        keys_distinct(attrs),
        0 <= at < attrs.len(),
    ensures
        attribute_map(attrs).contains_key(attrs[at].key@),
        attribute_map(attrs)[attrs[at].key@] == attrs[at].value@,
{
    lemma_attributes_upto_absent(attrs, at as nat, attrs[at].key@);
    lemma_attributes_upto_grows(attrs, (at + 1) as nat, attrs.len(), attrs[at].key@);
}

/// Replacing the value of the first attribute that carries `key` sets `key`
/// in the map and leaves every other key as it was.
pub proof fn lemma_attributes_upto_replace(
    attrs: Seq<Attribute>,
    at: int,
    replacement: Attribute,
    n: nat,
)
    requires
        0 <= at < attrs.len(),
        n <= attrs.len(),
        replacement.key@ == attrs[at].key@,
        forall|j: int| 0 <= j < at ==> (#[trigger] attrs[j]).key@ != replacement.key@,
    ensures
        attributes_upto(attrs.update(at, replacement), n) == if n <= at {
            attributes_upto(attrs, n)
        } else {
            attributes_upto(attrs, n).insert(replacement.key@, replacement.value@)
        },
    decreases n,
{
    let changed = attrs.update(at, replacement);
    if n > 0 {
        lemma_attributes_upto_replace(attrs, at, replacement, (n - 1) as nat);
        let before = attributes_upto(attrs, (n - 1) as nat);
        if n - 1 == at {
            lemma_attributes_upto_absent(attrs, at as nat, replacement.key@);
            assert(attributes_upto(changed, n) =~= attributes_upto(attrs, n).insert(
                replacement.key@,
                replacement.value@,
            ));
        } else if n - 1 > at {
            assert(changed[n - 1] == attrs[n - 1]);
            assert(attributes_upto(changed, n) =~= attributes_upto(attrs, n).insert(
                replacement.key@,
                replacement.value@,
            ));
        } else {
            assert(changed[n - 1] == attrs[n - 1]);
        }
    }
}

/// An attribute pushed behind the others does not change the map of the
/// first `n` of them.
pub proof fn lemma_attributes_upto_push(attrs: Seq<Attribute>, added: Attribute, n: nat)
    requires
        n <= attrs.len(),
    ensures
        attributes_upto(attrs.push(added), n) == attributes_upto(attrs, n),
    decreases n,
{
    if n > 0 {
        lemma_attributes_upto_push(attrs, added, (n - 1) as nat);
        assert(attrs.push(added)[n - 1] == attrs[n - 1]);
    }
}

impl Element {
    /// Whether no key occurs twice among the attributes of the element or of
    /// any element below it.
    pub open spec fn well_formed(&self) -> bool {
        element_well_formed(*self)
    }

    /// An element called `name` without attributes or children.
    pub fn new(name: String) -> (element: Element)
        ensures
            element@.name == name@,
            element@.attributes == Map::<Seq<char>, Seq<char>>::empty(),
            element@.children == Seq::<NodeView>::empty(),
            element.well_formed(),
    {
        let element = Element { name, attributes: Vec::new(), children: Vec::new() };
        assert(element@.children =~= Seq::<NodeView>::empty());
        element
    }

    /// Whether no key occurs twice among the attributes of the element or of
    /// any element below it.
    pub fn is_well_formed(&self) -> (well: bool)
        ensures
            well == self.well_formed(),
        decreases self,
    {
        let mut b: usize = 0;
        while b < self.attributes.len()
            invariant
                b <= self.attributes@.len(),
                forall|i: int, j: int|
                    0 <= i < j < b ==> (#[trigger] self.attributes@[i]).key@ != (
                    #[trigger] self.attributes@[j]).key@,
            decreases self.attributes.len() - b,
        {
            let mut a: usize = 0;
            while a < b
                invariant
                    a <= b < self.attributes@.len(),
                    forall|i: int|
                        0 <= i < a ==> (#[trigger] self.attributes@[i]).key@
                            != self.attributes@[b as int].key@,
                decreases b - a,
            {
                if self.attributes[a].key == self.attributes[b].key {
                    return false;
                }
                a += 1;
            }
            b += 1;
        }
        let mut c: usize = 0;
        while c < self.children.len()
            invariant
                c <= self.children@.len(),
                keys_distinct(self.attributes@),
                forall|i: int| 0 <= i < c ==> node_well_formed(#[trigger] self.children@[i]),
            decreases self.children.len() - c,
        {
            match &self.children[c] {
                Node::Element(e) => {
                    if !e.is_well_formed() {
                        return false;
                    }
                },
                _ => {},
            }
            c += 1;
        }
        true
    }

    /// The value of attribute `key`.
    pub fn attribute(&self, key: &str) -> (value: Option<&String>)
        ensures
            match value {
                Some(v) => self@.attribute(key@) == Some(v@),
                None => self@.attribute(key@).is_none(),
            },
    {
        let wanted = String::from_str(key);
        let mut i: usize = 0;
        while i < self.attributes.len()
            invariant
                i <= self.attributes.len(),
                wanted@ == key@,
                forall|j: int| 0 <= j < i ==> (#[trigger] self.attributes@[j]).key@ != key@,
            decreases self.attributes.len() - i,
        {
            if self.attributes[i].key == wanted {
                proof {
                    lemma_attributes_upto_absent(self.attributes@, i as nat, key@);
                    lemma_attributes_upto_grows(
                        self.attributes@,
                        (i + 1) as nat,
                        self.attributes@.len(),
                        key@,
                    );
                }
                return Some(&self.attributes[i].value);
            }
            i += 1;
        }
        proof {
            lemma_attributes_upto_absent(self.attributes@, i as nat, key@);
        }
        None
    }

    /// Sets attribute `key` to `value`, whether or not the element had it.
    pub fn set_attribute(&mut self, key: &str, value: String)
        ensures
            final(self)@ == old(self)@.with_attribute(key@, value@),
            old(self).well_formed() ==> final(self).well_formed(),
    {
        let wanted = String::from_str(key);
        let mut i: usize = 0;
        while i < self.attributes.len()
            invariant
                i <= self.attributes.len(),
                wanted@ == key@,
                *self == *old(self),
                forall|j: int| 0 <= j < i ==> (#[trigger] self.attributes@[j]).key@ != key@,
            decreases self.attributes.len() - i,
        {
            if self.attributes[i].key == wanted {
                let replacement = Attribute { key: wanted, value };
                proof {
                    lemma_attributes_upto_replace(
                        self.attributes@,
                        i as int,
                        replacement,
                        self.attributes@.len(),
                    );
                }
                self.attributes[i] = replacement;
                assert(final(self)@.children =~= old(self)@.children);
                assert(old(self).well_formed() ==> self.well_formed()) by {
                    if old(self).well_formed() {
                        assert forall|a: int, b: int|
                            0 <= a < b < self.attributes@.len() implies (
                        #[trigger] self.attributes@[a]).key@ != (
                        #[trigger] self.attributes@[b]).key@ by {
                            assert(self.attributes@[a].key@ == old(self).attributes@[a].key@);
                            assert(self.attributes@[b].key@ == old(self).attributes@[b].key@);
                        }
                    }
                }
                return ;
            }
            i += 1;
        }
        let added = Attribute { key: wanted, value };
        proof {
            lemma_attributes_upto_absent(self.attributes@, i as nat, key@);
            lemma_attributes_upto_push(self.attributes@, added, self.attributes@.len());
        }
        self.attributes.push(added);
        assert(self@.children =~= old(self)@.children);
        assert(old(self).well_formed() ==> self.well_formed()) by {
            if old(self).well_formed() {
                assert forall|a: int, b: int|
                    0 <= a < b < self.attributes@.len() implies (
                #[trigger] self.attributes@[a]).key@ != (#[trigger] self.attributes@[b]).key@ by {
                    if b < old(self).attributes@.len() {
                        assert(self.attributes@[a] == old(self).attributes@[a]);
                        assert(self.attributes@[b] == old(self).attributes@[b]);
                    } else {
                        assert(self.attributes@[a] == old(self).attributes@[a]);
                    }
                }
            }
        }
    }

    /// Appends `node` behind the other children.
    pub fn push_child(&mut self, node: Node)
        ensures
            final(self)@ == (ElementView {
                children: old(self)@.children.push(node@),
                ..old(self)@
            }),
            old(self).well_formed() && node_well_formed(node) ==> final(self).well_formed(),
    {
        self.children.push(node);
        assert(self@.children =~= old(self)@.children.push(node@));
        assert(old(self).well_formed() && node_well_formed(node) ==> self.well_formed()) by {
            if old(self).well_formed() && node_well_formed(node) {
                assert forall|i: int| 0 <= i < self.children@.len() implies node_well_formed(
                    #[trigger] self.children@[i],
                ) by {
                    if i < old(self).children@.len() {
                        assert(self.children@[i] == old(self).children@[i]);
                    }
                }
            }
        }
    }

    /// The position of the first child that is an element called `name`.
    pub fn child_index(&self, name: &str) -> (found: Option<usize>)
        ensures
            match found {
                Some(at) => child_position(self@.children, name@, 0) == Some(at as int) && at
                    < self.children@.len() && self.children@[at as int] is Element,
                None => child_position(self@.children, name@, 0).is_none(),
            },
    {
        self.child_index_from(name, 0)
    }

    /// The position of the first child from `from` on that is an element
    /// called `name`.
    pub fn child_index_from(&self, name: &str, from: usize) -> (found: Option<usize>)
        ensures
            match found {
                Some(at) => child_position(self@.children, name@, from as int) == Some(at as int)
                    && at < self.children@.len() && self.children@[at as int] is Element,
                None => child_position(self@.children, name@, from as int).is_none(),
            },
    {
        let wanted = String::from_str(name);
        let mut i: usize = from;
        while i < self.children.len()
            invariant
                from <= i,
                wanted@ == name@,
                child_position(self@.children, name@, from as int) == child_position(
                    self@.children,
                    name@,
                    i as int,
                ),
            decreases self.children.len() - i,
        {
            assert(self@.children[i as int] == self.children@[i as int]@);
            match &self.children[i] {
                Node::Element(e) => {
                    if e.name == wanted {
                        return Some(i);
                    }
                },
                _ => {},
            }
            i += 1;
        }
        None
    }

    /// The first child that is an element called `name`.
    pub fn child(&self, name: &str) -> (found: Option<&Element>)
        ensures
            match found {
                Some(e) => child_position(self@.children, name@, 0) matches Some(at)
                    && self@.children[at] == NodeView::Element(e@),
                None => child_position(self@.children, name@, 0).is_none(),
            },
    {
        match self.child_index(name) {
            Some(at) => {
                assert(self@.children[at as int] == self.children@[at as int]@);
                match &self.children[at] {
                    Node::Element(e) => Some(e),
                    _ => unreached(),
                }
            },
            None => None,
        }
    }
}

} // verus!
