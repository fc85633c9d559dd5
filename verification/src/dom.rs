//! The document tree: text and element nodes, and the attribute map.

use vstd::prelude::*;
use crate::strutil::{split_on_space, split_spaces, str_eq};

verus! {

/// An association list from names to values with unique keys, viewed as a
/// `Map<Seq<char>, _>`. It backs both the attribute map of an element and
/// the specified-values map of a styled node.
pub struct StrMap<V> {
    entries: Vec<(String, V)>,
}

/// The map that a sequence of entries denotes: later entries win.
spec fn entries_map<V: View>(s: Seq<(String, V)>) -> Map<Seq<char>, V::V>
    decreases s.len(),
{
    if s.len() == 0 {
        Map::empty()
    } else {
        entries_map(s.drop_last()).insert(s.last().0@, s.last().1@)
    }
}

/// No two entries share a key.
spec fn unique_keys<V>(s: Seq<(String, V)>) -> bool {
    forall|i: int, j: int| 0 <= i < j < s.len() ==> s[i].0@ != s[j].0@
}

proof fn lemma_entries_map_get<V: View>(s: Seq<(String, V)>, i: int)
    requires
        unique_keys(s),
        0 <= i < s.len(),
    ensures
        entries_map(s).contains_key(s[i].0@),
        entries_map(s)[s[i].0@] == s[i].1@,
    decreases s.len(),
{
    if i < s.len() - 1 {
        assert(s.drop_last()[i] == s[i]);
        lemma_entries_map_get(s.drop_last(), i);
        assert(s[i].0@ != s.last().0@);
    }
}

proof fn lemma_entries_map_absent<V: View>(s: Seq<(String, V)>, k: Seq<char>)
    requires
        forall|i: int| 0 <= i < s.len() ==> s[i].0@ != k,
    ensures
        !entries_map(s).contains_key(k),
    decreases s.len(),
{
    if s.len() > 0 {
        assert(forall|i: int|
            0 <= i < s.drop_last().len() ==> #[trigger] s.drop_last()[i].0@ != k);
        lemma_entries_map_absent(s.drop_last(), k);
    }
}

proof fn lemma_entries_map_update<V: View>(s: Seq<(String, V)>, i: int, e: (String, V))
    requires
        unique_keys(s),
        0 <= i < s.len(),
        e.0@ == s[i].0@,
    ensures
        entries_map(s.update(i, e)) == entries_map(s).insert(e.0@, e.1@),
    decreases s.len(),
{
    let t = s.update(i, e);
    if i == s.len() - 1 {
        assert(t.drop_last() =~= s.drop_last());
        assert(entries_map(t) =~= entries_map(s).insert(e.0@, e.1@));
    } else {
        assert(t.drop_last() =~= s.drop_last().update(i, e));
        assert(s.drop_last()[i] == s[i]);
        lemma_entries_map_update(s.drop_last(), i, e);
        assert(t.last() == s.last());
        assert(s.last().0@ != e.0@);
        assert(entries_map(t) =~= entries_map(s).insert(e.0@, e.1@));
    }
}

proof fn lemma_entries_map_dom<V: View>(s: Seq<(String, V)>)
    requires
        unique_keys(s),
    ensures
        entries_map(s).dom().finite(),
        entries_map(s).dom().len() == s.len(),
    decreases s.len(),
{
    if s.len() > 0 {
        lemma_entries_map_dom(s.drop_last());
        lemma_entries_map_absent(s.drop_last(), s.last().0@);
    }
}

impl<V: View> View for StrMap<V> {
    type V = Map<Seq<char>, V::V>;

    closed spec fn view(&self) -> Map<Seq<char>, V::V> {
        entries_map(self.entries@)
    }
}

impl<V> StrMap<V> {
    #[verifier::type_invariant]
    spec fn wf(self) -> bool {
        unique_keys(self.entries@)
    }
}

impl<V: View> StrMap<V> {
    /// The empty map.
    pub fn new() -> (r: Self)
        ensures
            r@ == Map::<Seq<char>, V::V>::empty(),
    {
        StrMap { entries: Vec::new() }
    }

    /// Bind `name` to `value`, replacing any earlier binding of `name`.
    pub fn insert(&mut self, name: String, value: V)
        ensures
            final(self)@ == old(self)@.insert(name@, value@),
    {
        proof {
            use_type_invariant(&*self);
        }
        let mut es: Vec<(String, V)> = Vec::new();
        core::mem::swap(&mut self.entries, &mut es);
        let ghost orig = es@;
        let n = es.len();
        let mut i: usize = 0;
        let mut found: usize = n;
        while i < n && found == n
            invariant
                n == es.len(),
                i <= n,
                es@ == orig,
                unique_keys(orig),
                found == n || (found < n && orig[found as int].0@ == name@),
                found == n ==> forall|j: int| 0 <= j < i ==> orig[j].0@ != name@,
            decreases n - i + (if found == n { 1int } else { 0int }),
        {
            if str_eq(es[i].0.as_str(), name.as_str()) {
                found = i;
            } else {
                i = i + 1;
            }
        }
        if found < n {
            proof {
                lemma_entries_map_update(es@, found as int, (name, value));
                assert(forall|p: int, q: int|
                    0 <= p < q < orig.len()
                        ==> orig.update(found as int, (name, value))[p].0@
                            != orig.update(found as int, (name, value))[q].0@);
            }
            es.set(found, (name, value));
        } else {
            proof {
                let pushed = es@.push((name, value));
                assert(pushed.drop_last() =~= es@);
                assert(forall|p: int, q: int|
                    0 <= p < q < pushed.len() ==> pushed[p].0@ != pushed[q].0@);
            }
            es.push((name, value));
        }
        core::mem::swap(&mut self.entries, &mut es);
    }

    /// Look `name` up.
    pub fn get(&self, name: &str) -> (r: Option<&V>)
        ensures
            match r {
                Option::Some(v) => self@.contains_key(name@) && v@ == self@[name@],
                Option::None => !self@.contains_key(name@),
            },
    {
        proof {
            use_type_invariant(self);
        }
        let n = self.entries.len();
        let mut i: usize = 0;
        while i < n
            invariant
                n == self.entries.len(),
                i <= n,
                unique_keys(self.entries@),
                self@ == entries_map(self.entries@),
                forall|j: int| 0 <= j < i ==> self.entries@[j].0@ != name@,
            decreases n - i,
        {
            if str_eq(self.entries[i].0.as_str(), name) {
                proof {
                    lemma_entries_map_get(self.entries@, i as int);
                }
                return Option::Some(&self.entries[i].1);
            }
            i = i + 1;
        }
        proof {
            lemma_entries_map_absent(self.entries@, name@);
        }
        Option::None
    }

    /// How many names are bound.
    pub fn len(&self) -> (r: usize)
        ensures
            self@.dom().finite(),
            r == self@.dom().len(),
    {
        proof {
            use_type_invariant(self);
            lemma_entries_map_dom(self.entries@);
        }
        self.entries.len()
    }

    /// Whether no name is bound.
    pub fn is_empty(&self) -> (r: bool)
        ensures
            r == (self@ == Map::<Seq<char>, V::V>::empty()),
    {
        proof {
            use_type_invariant(self);
            lemma_entries_map_dom(self.entries@);
            if self.entries@.len() == 0 {
                assert(self@ =~= Map::<Seq<char>, V::V>::empty());
            } else {
                lemma_entries_map_get(self.entries@, 0);
            }
        }
        self.entries.len() == 0
    }
}

/// Attribute mapping of an element: name to value, names unique.
pub type AttrMap = StrMap<String>;

/// Element data: a tag name and the attribute mapping.
pub struct ElementData {
    pub tag_name: String,
    pub attributes: AttrMap,
}

/// Mathematical model of an element's data.
pub ghost struct ElementView {
    pub tag_name: Seq<char>,
    pub attributes: Map<Seq<char>, Seq<char>>,
}

impl View for ElementData {
    type V = ElementView;

    open spec fn view(&self) -> ElementView {
        ElementView { tag_name: self.tag_name@, attributes: self.attributes@ }
    }
}

/// What a node is: opaque character data, or an element.
pub enum NodeType {
    Text(String),
    Element(ElementData),
}

/// Mathematical model of a `NodeType`.
pub ghost enum NodeTypeView {
    Text(Seq<char>),
    Element(ElementView),
}

impl View for NodeType {
    type V = NodeTypeView;

    open spec fn view(&self) -> NodeTypeView {
        match self {
            NodeType::Text(s) => NodeTypeView::Text(s@),
            NodeType::Element(e) => NodeTypeView::Element(e@),
        }
    }
}

/// A document node: its kind plus an ordered sequence of children.
pub struct Node {
    pub children: Vec<Node>,
    pub node_type: NodeType,
}

/// Mathematical model of a `Node`.
pub ghost struct NodeView {
    pub children: Seq<NodeView>,
    pub node_type: NodeTypeView,
}

/// The model of a node, recursively.
pub open spec fn node_view(n: Node) -> NodeView
    decreases n,
{
    NodeView { children: nodes_view(n.children@), node_type: n.node_type@ }
}

/// The models of a sequence of nodes, in order.
pub open spec fn nodes_view(s: Seq<Node>) -> Seq<NodeView>
    decreases s,
{
    if s.len() == 0 {
        Seq::empty()
    } else {
        nodes_view(s.drop_last()).push(node_view(s.last()))
    }
}

/// `nodes_view` maps `node_view` over the sequence.
pub proof fn lemma_nodes_view(s: Seq<Node>)
    ensures
        nodes_view(s).len() == s.len(),
        forall|i: int| 0 <= i < s.len() ==> nodes_view(s)[i] == node_view(s[i]),
    decreases s,
{
    if s.len() > 0 {
        lemma_nodes_view(s.drop_last());
        assert(forall|i: int| 0 <= i < s.len() - 1 ==> s.drop_last()[i] == s[i]);
    }
}

impl View for Node {
    type V = NodeView;

    open spec fn view(&self) -> NodeView {
        node_view(*self)
    }
}

impl Node {
    /// A node of the given kind with no children.
    pub fn new(node_type: NodeType) -> (r: Node)
        ensures
            r@ == (NodeView { children: Seq::empty(), node_type: node_type@ }),
    {
        Node { node_type, children: Vec::new() }
    }

    /// Append one child after the existing children.
    pub fn append_child(&mut self, node: Node)
        ensures
            final(self)@ == (NodeView {
                children: old(self)@.children.push(node@),
                node_type: old(self)@.node_type,
            }),
    {
        proof {
            assert(self.children@.push(node).drop_last() =~= self.children@);
        }
        self.children.push(node);
    }
}

impl ElementData {
    /// Element data from a tag name and attributes.
    pub fn new(tag_name: &str, attributes: AttrMap) -> (r: ElementData)
        ensures
            r@ == (ElementView { tag_name: tag_name@, attributes: attributes@ }),
    {
        ElementData { tag_name: tag_name.to_owned(), attributes }
    }

    /// The value of the attribute named `id`, if present.
    pub fn id(&self) -> (r: Option<&String>)
        ensures
            match r {
                Option::Some(v) => id_of(self@) == Option::Some(v@),
                Option::None => id_of(self@) is None,
            },
    {
        self.attributes.get("id")
    }

    /// The class names of this element: the `class` attribute split on
    /// single spaces, or nothing when the attribute is absent.
    pub fn classes(&self) -> (r: Vec<String>)
        ensures
            r@.map_values(|c: String| c@) == classes_of(self@),
    {
        match self.attributes.get("class") {
            Option::Some(classlist) => split_on_space(classlist.as_str()),
            Option::None => {
                let r: Vec<String> = Vec::new();
                proof {
                    assert(r@.map_values(|c: String| c@) =~= classes_of(self@));
                }
                r
            },
        }
    }
}

/// The `id` attribute of an element, if present.
pub open spec fn id_of(e: ElementView) -> Option<Seq<char>> {
    if e.attributes.contains_key("id"@) {
        Option::Some(e.attributes["id"@])
    } else {
        Option::None
    }
}

/// The class set of an element: its `class` attribute split on spaces.
pub open spec fn classes_of(e: ElementView) -> Seq<Seq<char>> {
    if e.attributes.contains_key("class"@) {
        split_spaces(e.attributes["class"@])
    } else {
        Seq::empty()
    }
}

/// A text node holding `data`.
pub fn text(data: String) -> (r: Node)
    ensures
        r@ == (NodeView { children: Seq::empty(), node_type: NodeTypeView::Text(data@) }),
{
    Node { children: Vec::new(), node_type: NodeType::Text(data) }
}

/// An element node with the given tag, attributes and children.
pub fn elem(tag_name: String, attrs: AttrMap, children: Vec<Node>) -> (r: Node)
    ensures
        r@ == (NodeView {
            children: nodes_view(children@),
            node_type: NodeTypeView::Element(ElementView {
                tag_name: tag_name@,
                attributes: attrs@,
            }),
        }),
{
    Node {
        children,
        node_type: NodeType::Element(ElementData { tag_name, attributes: attrs }),
    }
}

} // verus!
