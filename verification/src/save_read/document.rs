//! A parsed XML save file, held as plain values: its nodes in document order,
//! each with the position of its parent, whether it is an element, its local
//! tag name, its attributes and its text. Parsing is done by `roxmltree`.
use vstd::prelude::*;

verus! {

/// `roxmltree::Error`, the reason a text is not an XML document.
#[verifier::external_type_specification]
#[verifier::external_body]
pub struct ExXmlError(roxmltree::Error);

/// One attribute of an element: its local name and its value.
#[derive(Debug)]
pub struct XmlAttribute {
    pub name: String,
    pub value: String,
}

/// One node of an XML document.
#[derive(Debug)]
pub struct XmlNode {
    /// The position of the parent node (`None` for the root node).
    pub parent: Option<usize>,
    /// Whether the node is an element.
    pub element: bool,
    /// The local tag name (empty for a node that is not an element).
    pub tag_name: String,
    /// The attributes, in document order.
    pub attributes: Vec<XmlAttribute>,
    /// The node's text: for an element, the text of its first child when that
    /// child is a text node; for a text or comment node, its text.
    pub text: Option<String>,
}

/// A parsed XML document: all of its nodes in document order, the root node
/// (which holds the whole document) first.
#[derive(Debug)]
pub struct SaveDocument {
    pub nodes: Vec<XmlNode>,
}

/// A node as plain values.
pub struct NodeView {
    pub parent: Option<usize>,
    pub element: bool,
    pub tag_name: Seq<char>,
    pub attributes: Seq<(Seq<char>, Seq<char>)>,
    pub text: Option<Seq<char>>,
}

impl View for XmlNode {
    type V = NodeView;

    open spec fn view(&self) -> NodeView {
        NodeView {
            parent: self.parent,
            element: self.element,
            tag_name: self.tag_name@,
            attributes: self.attributes@.map_values(|a: XmlAttribute| (a.name@, a.value@)),
            text: match self.text {
                Some(t) => Some(t@),
                None => None,
            },
        }
    }
}

impl View for SaveDocument {
    type V = Seq<NodeView>;

    open spec fn view(&self) -> Seq<NodeView> {
        self.nodes@.map_values(|n: XmlNode| n@)
    }
}

/// The nodes of the XML document written in `text`, when it is one (what
/// `roxmltree::Document::parse` finds).
pub uninterp spec fn xml_parse(text: Seq<char>) -> Option<Seq<NodeView>>;

/// `roxmltree::Document::parse`: parses `text` as XML. Its nodes come back in
/// document order (`Document::descendants`, whose positions are the node
/// ids), each with the id of its parent, whether it is an element, its local
/// tag name, its attributes (local name and value, in order) and `Node::text`.
/// The result depends on `text` alone: the contract names it (`xml_parse`) and
/// says nothing of which texts are XML or of what their nodes are.
#[verifier::external_body]
pub(crate) fn parse_xml(text: &str) -> (res: Result<SaveDocument, roxmltree::Error>)
    ensures
        match res {
            Ok(d) => xml_parse(text@) == Some(d@),
            Err(_) => xml_parse(text@) is None,
        },
{
    let doc = roxmltree::Document::parse(text)?;
    let nodes = doc.descendants().map(|n| XmlNode {
        parent: n.parent().map(|p| p.id().get_usize()),
        element: n.is_element(),
        tag_name: n.tag_name().name().to_string(),
        attributes: n.attributes().map(
            |a| XmlAttribute { name: a.name().to_string(), value: a.value().to_string() },
        ).collect(),
        text: n.text().map(|t| t.to_string()),
    }).collect();
    Ok(SaveDocument { nodes })
}

impl SaveDocument {
    /// Parses the XML save file `text` into its nodes; a text that is not XML
    /// gives the parser's error.
    pub fn parse(text: &str) -> (res: Result<SaveDocument, roxmltree::Error>)
        ensures
            match res {
                Ok(d) => xml_parse(text@) == Some(d@),
                Err(_) => xml_parse(text@) is None,
            },
    {
        parse_xml(text)
    }
}

/// The value of the first attribute named `name`, if any.
pub open spec fn attribute(attrs: Seq<(Seq<char>, Seq<char>)>, name: Seq<char>) -> Option<Seq<char>>
    decreases attrs.len(),
{
    if attrs.len() == 0 {
        None
    } else if attrs[0].0 == name {
        Some(attrs[0].1)
    } else {
        attribute(attrs.drop_first(), name)
    }
}

/// Whether `n` is an element with local tag name `tag`.
pub open spec fn is_element_of_type(n: NodeView, tag: Seq<char>) -> bool {
    n.element && n.tag_name == tag
}

/// The first position from `from` (below `n`) that satisfies `p`.
pub open spec fn first_where(n: nat, from: nat, p: spec_fn(nat) -> bool) -> Option<nat>
    decreases n - from,
{
    if from >= n {
        None
    } else if p(from) {
        Some(from)
    } else {
        first_where(n, from + 1, p)
    }
}

/// What `first_where` finds is the first position that satisfies the test.
pub proof fn lemma_first_where(n: nat, from: nat, p: spec_fn(nat) -> bool)
    ensures
        first_where(n, from, p) matches Some(i) ==> from <= i < n && p(i) && forall|j: nat|
            from <= j < i ==> !#[trigger] p(j),
        first_where(n, from, p) is None ==> forall|j: nat| from <= j < n ==> !#[trigger] p(j),
    decreases n - from,
{
    if from < n && !p(from) {
        lemma_first_where(n, from + 1, p);
    }
}

/// Whether the node at `i` is a child of the node at `parent` that is an
/// element tagged `tag` and, when `name` is given, has a `name` attribute of
/// that value.
pub open spec fn is_child_of_type(
    nodes: Seq<NodeView>,
    parent: usize,
    tag: Seq<char>,
    name: Option<Seq<char>>,
    i: nat,
) -> bool {
    &&& i < nodes.len()
    &&& nodes[i as int].parent == Some(parent)
    &&& is_element_of_type(nodes[i as int], tag)
    &&& name matches Some(v) ==> attribute(nodes[i as int].attributes, "name"@) == Some(v)
}

/// The first child of the node at `parent` (in document order) that is an
/// element tagged `tag`, named `name` when a name is given.
pub open spec fn child_of_type(
    nodes: Seq<NodeView>,
    parent: usize,
    tag: Seq<char>,
    name: Option<Seq<char>>,
) -> Option<nat> {
    first_where(nodes.len(), 0, |i: nat| is_child_of_type(nodes, parent, tag, name, i))
}

/// Whether the node's first attribute named `name` has the value `value`.
pub fn attribute_is(node: &XmlNode, name: &String, value: &String) -> (res: bool)
    ensures
        res == (attribute(node@.attributes, name@) == Some(value@)),
{
    let ghost attrs = node@.attributes;
    let n = node.attributes.len();
    let mut i: usize = 0;
    assert(attrs.skip(0) =~= attrs);
    while i < n
        invariant
            n == node.attributes.len(),
            attrs == node@.attributes,
            i <= n,
            attribute(attrs, name@) == attribute(attrs.skip(i as int), name@),
        decreases n - i,
    {
        let a = &node.attributes[i];
        let ghost rest = attrs.skip(i as int);
        assert(rest[0] == (a.name@, a.value@));
        assert(rest.drop_first() =~= attrs.skip(i + 1));
        if a.name == *name {
            return a.value == *value;
        }
        i = i + 1;
    }
    assert(attrs.skip(n as int) =~= Seq::<(Seq<char>, Seq<char>)>::empty());
    false
}

/// The first child of the node at `parent` that is an element tagged `tag`,
/// named `name` when a name is given.
pub fn find_child(doc: &SaveDocument, parent: usize, tag: &String, name: Option<&String>) -> (res:
    Option<usize>)
    ensures
        res == match child_of_type(
            doc@,
            parent,
            tag@,
            match name {
                Some(v) => Some(v@),
                None => None,
            },
        ) {
            Some(i) => Some(i as usize),
            None => None::<usize>,
        },
{
    let ghost nodes = doc@;
    let ghost want = match name {
        Some(v) => Some(v@),
        None => None::<Seq<char>>,
    };
    let ghost p = |i: nat| is_child_of_type(nodes, parent, tag@, want, i);
    let name_key = "name".to_owned();
    let n = doc.nodes.len();
    for i in 0..n
        invariant
            n == doc.nodes.len(),
            nodes == doc@,
            name_key@ == "name"@,
            p == (|i: nat| is_child_of_type(nodes, parent, tag@, want, i)),
            want == match name {
                Some(v) => Some(v@),
                None => None::<Seq<char>>,
            },
            first_where(n as nat, 0, p) == first_where(n as nat, i as nat, p),
    {
        let node = &doc.nodes[i];
        assert(nodes[i as int] == node@);
        let hit = node.parent == Some(parent) && node.element && node.tag_name == *tag && match name {
            Some(v) => attribute_is(node, &name_key, v),
            None => true,
        };
        assert(hit == p(i as nat));
        if hit {
            return Some(i);
        }
    }
    None
}

} // verus!
