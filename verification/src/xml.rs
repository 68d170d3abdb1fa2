//! An XML document as the contract reads it: the nodes of the tree in
//! document order, each naming its children by position.

use roxmltree::Document;
use vstd::prelude::*;

verus! {

/// An attribute of an element: its local name, its namespace URI, its value.
pub type XmlAttribute = (String, Option<String>, String);

/// One node of a parsed document, in document order.
pub struct XmlNode {
    /// Whether the node is an element.
    pub element: bool,
    /// The local name of an element; empty for other nodes.
    pub name: String,
    /// The namespace URI of an element.
    pub namespace: Option<String>,
    /// The text of the node: for an element, that of its first child where
    /// that child is text.
    pub text: Option<String>,
    pub attributes: Vec<XmlAttribute>,
    /// The positions of the node's children, in order.
    pub children: Vec<usize>,
}

/// Why a text is not well-formed XML, and where (from 1:1).
pub struct XmlError {
    pub message: String,
    pub row: u32,
    pub col: u32,
}

/// A parsed document whose root element is `nodes[root]`.
pub struct XmlDocument {
    pub nodes: Vec<XmlNode>,
    pub root: usize,
}

/// The outcome of parsing `text` with `roxmltree::Document::parse`: the
/// document's nodes in document order (the document node first), or the
/// error's message and its row and column.
pub uninterp spec fn roxmltree_parse(text: Seq<char>) -> Result<Seq<XmlNode>, (String, u32, u32)>;

/// Parses `text` with `roxmltree::Document::parse` and lists the nodes of
/// the tree in document order, each with what the crate reports of it; or
/// the error's `Display` text and position.
#[verifier::external_body]
fn parse_nodes(text: &str) -> (r: Result<Vec<XmlNode>, (String, u32, u32)>)
    ensures
        roxmltree_parse(text@) == nodes_view(r),
{
    Document::parse(text).map(|d| d.descendants().map(|n| XmlNode {
        element: n.is_element(),
        name: n.tag_name().name().into(),
        namespace: n.tag_name().namespace().map(Into::into),
        text: n.text().map(Into::into),
        attributes: n.attributes().map(|a| (a.name().into(), a.namespace().map(Into::into), a.value().into())).collect(),
        children: n.children().map(|c| c.id().get_usize()).collect()
    }).collect()).map_err(|e| (e.to_string(), e.pos().row, e.pos().col))
}

pub open spec fn nodes_view(r: Result<Vec<XmlNode>, (String, u32, u32)>) -> Result<Seq<XmlNode>, (String, u32, u32)> {
    match r {
        Ok(nodes) => Ok(nodes@),
        Err(e) => Err(e),
    }
}

/// Every child comes after its parent and within the document.
pub open spec fn nodes_ordered(nodes: Seq<XmlNode>) -> bool {
    forall|i: int, k: int|
        0 <= i < nodes.len() && 0 <= k < nodes[i].children@.len() ==> i < #[trigger] nodes[i].children@[k]
            < nodes.len()
}

/// Those of `ids` that name an element after position `i`.
pub open spec fn element_ids(nodes: Seq<XmlNode>, i: int, ids: Seq<usize>) -> Seq<usize>
    decreases ids.len(),
{
    if ids.len() == 0 {
        ids
    } else {
        let rest = element_ids(nodes, i, ids.drop_last());
        let c = ids.last();
        if i < c < nodes.len() && nodes[c as int].element {
            rest.push(c)
        } else {
            rest
        }
    }
}

/// The element children of node `i`, in order.
pub open spec fn kids(nodes: Seq<XmlNode>, i: int) -> Seq<usize> {
    element_ids(nodes, i, nodes[i].children@)
}

pub proof fn lemma_element_ids(nodes: Seq<XmlNode>, i: int, ids: Seq<usize>)
    ensures
        element_ids(nodes, i, ids).len() <= ids.len(),
        forall|k: int|
            0 <= k < element_ids(nodes, i, ids).len() ==> i < #[trigger] element_ids(nodes, i, ids)[k]
                < nodes.len() && nodes[element_ids(nodes, i, ids)[k] as int].element,
    decreases ids.len(),
{
    if ids.len() > 0 {
        lemma_element_ids(nodes, i, ids.drop_last());
    }
}

pub proof fn lemma_kids(nodes: Seq<XmlNode>, i: int)
    ensures
        forall|k: int|
            0 <= k < kids(nodes, i).len() ==> i < #[trigger] kids(nodes, i)[k] < nodes.len()
                && nodes[kids(nodes, i)[k] as int].element,
{
    lemma_element_ids(nodes, i, nodes[i].children@);
}

/// The first of `ids` that names an element.
pub open spec fn first_element(nodes: Seq<XmlNode>, ids: Seq<usize>) -> Option<usize>
    decreases ids.len(),
{
    if ids.len() == 0 {
        None
    } else if ids[0] < nodes.len() && nodes[ids[0] as int].element {
        Some(ids[0])
    } else {
        first_element(nodes, ids.drop_first())
    }
}

/// The root element: the first element child of the document node.
pub open spec fn root_element(nodes: Seq<XmlNode>) -> Option<usize> {
    if nodes.len() == 0 {
        None
    } else {
        first_element(nodes, nodes[0].children@)
    }
}

/// The value of the first attribute whose local name is `name`, whatever its
/// namespace, as `roxmltree::Node::attribute` finds it.
pub open spec fn attribute_value(attributes: Seq<XmlAttribute>, name: Seq<char>) -> Option<Seq<char>>
    decreases attributes.len(),
{
    if attributes.len() == 0 {
        None
    } else if attributes[0].0@ == name {
        Some(attributes[0].2@)
    } else {
        attribute_value(attributes.drop_first(), name)
    }
}

pub open spec fn opt_view(o: Option<String>) -> Option<Seq<char>> {
    match o {
        Some(s) => Some(s@),
        None => None,
    }
}

/// The text of a node, or nothing.
pub open spec fn text_of(node: XmlNode) -> Seq<char> {
    match node.text {
        Some(t) => t@,
        None => Seq::empty(),
    }
}

impl XmlDocument {
    pub open spec fn wf(&self) -> bool {
        &&& nodes_ordered(self.nodes@)
        &&& root_element(self.nodes@) == Some(self.root)
    }

    /// A document of these nodes, where every child follows its parent and
    /// there is a root element.
    pub fn from_nodes(nodes: Vec<XmlNode>) -> (r: Option<XmlDocument>)
        ensures
            r is Some <==> (nodes_ordered(nodes@) && root_element(nodes@) is Some),
            r matches Some(d) ==> d.nodes@ == nodes@ && d.wf(),
    {
        let n = nodes.len();
        let mut i: usize = 0;
        while i < n
            invariant
                i <= n,
                n == nodes@.len(),
                forall|p: int, k: int|
                    0 <= p < i && 0 <= k < nodes@[p].children@.len() ==> p
                        < #[trigger] nodes@[p].children@[k] < n,
            decreases n - i,
        {
            let children = &nodes[i].children;
            let mut k: usize = 0;
            while k < children.len()
                invariant
                    i < n,
                    n == nodes@.len(),
                    k <= children@.len(),
                    children@ == nodes@[i as int].children@,
                    forall|p: int, q: int|
                        0 <= p < i && 0 <= q < nodes@[p].children@.len() ==> p
                            < #[trigger] nodes@[p].children@[q] < n,
                    forall|q: int| 0 <= q < k ==> i < #[trigger] children@[q] < n,
                decreases children@.len() - k,
            {
                if children[k] <= i || children[k] >= n {
                    return None;
                }
                k = k + 1;
            }
            i = i + 1;
        }
        assert(nodes_ordered(nodes@));
        if n == 0 {
            return None;
        }
        let top = &nodes[0].children;
        let mut k: usize = 0;
        assert(top@.skip(0) =~= top@);
        while k < top.len()
            invariant
                n == nodes@.len(),
                n > 0,
                k <= top@.len(),
                top@ == nodes@[0].children@,
                nodes_ordered(nodes@),
                first_element(nodes@, top@) == first_element(nodes@, top@.skip(k as int)),
            decreases top@.len() - k,
        {
            let c = top[k];
            if c < n && nodes[c].element {
                let ghost s = top@.skip(k as int);
                assert(s[0] == c);
                return Some(XmlDocument { nodes, root: c });
            }
            assert(top@.skip(k as int).drop_first() =~= top@.skip(k + 1));
            k = k + 1;
        }
        None
    }

    /// The positions of the element children of node `i`, in order.
    pub fn element_children(&self, i: usize) -> (r: Vec<usize>)
        requires
            i < self.nodes@.len(),
        ensures
            r@ == kids(self.nodes@, i as int),
    {
        let ghost nodes = self.nodes@;
        let children = &self.nodes[i].children;
        let mut r: Vec<usize> = Vec::new();
        let mut k: usize = 0;
        assert(children@.take(0) =~= Seq::<usize>::empty());
        while k < children.len()
            invariant
                i < nodes.len(),
                nodes == self.nodes@,
                children@ == nodes[i as int].children@,
                k <= children@.len(),
                r@ == element_ids(nodes, i as int, children@.take(k as int)),
            decreases children@.len() - k,
        {
            let c = children[k];
            assert(children@.take(k + 1).drop_last() =~= children@.take(k as int));
            if i < c && c < self.nodes.len() && self.nodes[c].element {
                r.push(c);
            }
            k = k + 1;
        }
        assert(children@.take(k as int) =~= children@);
        r
    }

    /// The value of the first attribute of node `i` with local name `name`.
    pub fn attribute(&self, i: usize, name: &str) -> (r: Option<&str>)
        requires
            i < self.nodes@.len(),
        ensures
            opt_str_view(r) == attribute_value(self.nodes@[i as int].attributes@, name@),
    {
        let attributes = &self.nodes[i].attributes;
        let mut k: usize = 0;
        assert(attributes@.skip(0) =~= attributes@);
        while k < attributes.len()
            invariant
                i < self.nodes@.len(),
                attributes@ == self.nodes@[i as int].attributes@,
                k <= attributes@.len(),
                attribute_value(attributes@, name@) == attribute_value(
                    attributes@.skip(k as int),
                    name@,
                ),
            decreases attributes@.len() - k,
        {
            assert(attributes@.skip(k as int)[0] == attributes@[k as int]);
            if crate::text::same_text(attributes[k].0.as_str(), name) {
                return Some(attributes[k].2.as_str());
            }
            assert(attributes@.skip(k as int).drop_first() =~= attributes@.skip(k + 1));
            k = k + 1;
        }
        None
    }

    /// The text of node `i`, or the empty text.
    pub fn text(&self, i: usize) -> (r: &str)
        requires
            i < self.nodes@.len(),
        ensures
            r@ == text_of(self.nodes@[i as int]),
    {
        match &self.nodes[i].text {
            Some(t) => t.as_str(),
            None => {
                proof {
                    reveal_strlit("");
                }
                ""
            },
        }
    }
}

pub open spec fn opt_str_view(o: Option<&str>) -> Option<Seq<char>> {
    match o {
        Some(s) => Some(s@),
        None => None,
    }
}

/// Parses `text` as XML. Where `roxmltree` reports a tree in which a child
/// does not follow its parent, or there is no root element (which its
/// parser does not produce), this answers the error `no_root_error()`.
pub fn parse_document(text: &str) -> (r: Result<XmlDocument, XmlError>)
    ensures
        match roxmltree_parse(text@) {
            Err((message, row, col)) => r matches Err(e) && e.message == message && e.row == row
                && e.col == col,
            Ok(nodes) => if nodes_ordered(nodes) && root_element(nodes) is Some {
                r matches Ok(d) && d.nodes@ == nodes && d.wf()
            } else {
                r matches Err(e) && e.message@ == no_root_message() && e.row == 1 && e.col == 1
            },
        },
{
    match parse_nodes(text) {
        Err((message, row, col)) => Err(XmlError { message, row, col }),
        Ok(nodes) => match XmlDocument::from_nodes(nodes) {
            Some(d) => Ok(d),
            None => Err(XmlError { message: "the document has no root element".to_owned(), row: 1, col: 1 }),
        },
    }
}

pub open spec fn no_root_message() -> Seq<char> {
    "the document has no root element"@
}

pub proof fn lemma_first_element(nodes: Seq<XmlNode>, ids: Seq<usize>)
    ensures
        first_element(nodes, ids) matches Some(c) ==> c < nodes.len() && nodes[c as int].element,
    decreases ids.len(),
{
    if ids.len() > 0 {
        lemma_first_element(nodes, ids.drop_first());
    }
}

pub proof fn lemma_root(nodes: Seq<XmlNode>)
    ensures
        root_element(nodes) matches Some(c) ==> c < nodes.len() && nodes[c as int].element,
{
    if nodes.len() > 0 {
        lemma_first_element(nodes, nodes[0].children@);
    }
}

} // verus!
