//! The XML Schema subset this contract binds, and how a schema document is read
//! into it.
//!
//! Supported: top-level `xs:element` and named `xs:complexType`; an element's
//! `type` naming a built-in simple type or a named complex type, or an inline
//! `xs:complexType`; `xs:sequence`, `xs:all` and `xs:choice` holding elements;
//! `minOccurs` and `maxOccurs` (`unbounded`); `xs:attribute` with `use` and a
//! built-in type; `xs:simpleContent` over `xs:extension`; a named or inline
//! `xs:simpleType` restricting a built-in, taken as its base. An element with no
//! type at all is `anyType` and admits anything.
//!
//! Refused when bound, by name: `ref`, `group`, `complexContent`, nested
//! compositors, `import` and `include`. A refused schema is a configuration
//! error, which is where an operator wants to hear about it.

use crate::contract::ContractError;
use crate::text::{
    chars_of, lemma_local_part_idempotent, lemma_local_part_plain, local_name, local_part, parse_unsigned, same_text,
    unsigned_at_most,
};
use crate::xml::{
    attribute_value, kids, lemma_kids, lemma_root, opt_str_view, nodes_ordered, opt_view, parse_document, roxmltree_parse,
    root_element, XmlDocument, XmlNode,
};
use vstd::prelude::*;

verus! {

/// The namespace of XML Schema.
pub const XS: &'static str = "http://www.w3.org/2001/XMLSchema";

/// One bound schema. Each table is a list of named entries, read as the
/// table `entries_map` makes of it: a later entry replaces an earlier one of
/// the same name, as an insert into a map would, and a lookup has a stated
/// result.
pub struct Schema {
    target_namespace: Option<String>,
    elements: Vec<(String, Element)>,
    types: Vec<(String, ComplexType)>,
    simple: Vec<(String, String)>,
}

/// An element declaration.
pub struct Element {
    pub name: String,
    pub kind: Kind,
    pub min: u32,
    /// `None` is unbounded.
    pub max: Option<u32>,
}

/// What an element holds.
pub enum Kind {
    Any,
    Builtin(String),
    Named(String),
    Inline(Box<ComplexType>),
}

pub struct ComplexType {
    pub attributes: Vec<Attribute>,
    pub content: Content,
}

pub struct Attribute {
    pub name: String,
    pub required: bool,
    pub builtin: String,
}

pub enum Content {
    Empty,
    Simple(String),
    Sequence(Vec<Element>),
    All(Vec<Element>),
    Choice(Vec<Element>),
}

// ---------------------------------------------------------------------------
// The declarations as text

pub struct ElementDecl {
    pub name: Seq<char>,
    pub kind: KindDecl,
    pub min: u32,
    pub max: Option<u32>,
}

pub enum KindDecl {
    Any,
    Builtin(Seq<char>),
    Named(Seq<char>),
    Inline(Box<ComplexTypeDecl>),
}

pub struct ComplexTypeDecl {
    pub attributes: Seq<AttributeDecl>,
    pub content: ContentDecl,
}

pub struct AttributeDecl {
    pub name: Seq<char>,
    pub required: bool,
    pub builtin: Seq<char>,
}

pub enum ContentDecl {
    Empty,
    Simple(Seq<char>),
    Sequence(Seq<ElementDecl>),
    All(Seq<ElementDecl>),
    Choice(Seq<ElementDecl>),
}

/// A schema as text: its target namespace and its three tables, each keyed
/// by local name.
pub struct SchemaDecl {
    pub target_namespace: Option<Seq<char>>,
    pub elements: Map<Seq<char>, ElementDecl>,
    pub types: Map<Seq<char>, ComplexTypeDecl>,
    pub simple: Map<Seq<char>, Seq<char>>,
}

pub open spec fn element_decl(e: Element) -> ElementDecl
    decreases e,
{
    ElementDecl { name: e.name@, kind: kind_decl(e.kind), min: e.min, max: e.max }
}

pub open spec fn kind_decl(k: Kind) -> KindDecl
    decreases k,
{
    match k {
        Kind::Any => KindDecl::Any,
        Kind::Builtin(b) => KindDecl::Builtin(b@),
        Kind::Named(n) => KindDecl::Named(n@),
        Kind::Inline(c) => KindDecl::Inline(Box::new(complex_decl(*c))),
    }
}

pub open spec fn complex_decl(c: ComplexType) -> ComplexTypeDecl
    decreases c,
{
    ComplexTypeDecl {
        attributes: c.attributes@.map_values(|a: Attribute| a@),
        content: content_decl(c.content),
    }
}

pub open spec fn content_decl(c: Content) -> ContentDecl
    decreases c,
{
    match c {
        Content::Empty => ContentDecl::Empty,
        Content::Simple(b) => ContentDecl::Simple(b@),
        Content::Sequence(v) => ContentDecl::Sequence(element_decls(v@)),
        Content::All(v) => ContentDecl::All(element_decls(v@)),
        Content::Choice(v) => ContentDecl::Choice(element_decls(v@)),
    }
}

pub open spec fn element_decls(s: Seq<Element>) -> Seq<ElementDecl>
    decreases s,
{
    if s.len() == 0 {
        Seq::empty()
    } else {
        element_decls(s.drop_last()).push(element_decl(s.last()))
    }
}

pub proof fn lemma_element_decls(s: Seq<Element>)
    ensures
        element_decls(s).len() == s.len(),
        forall|k: int| 0 <= k < s.len() ==> #[trigger] element_decls(s)[k] == element_decl(s[k]),
    decreases s.len(),
{
    if s.len() > 0 {
        lemma_element_decls(s.drop_last());
        assert forall|k: int| 0 <= k < s.len() implies #[trigger] element_decls(s)[k]
            == element_decl(s[k]) by {
            if k < s.len() - 1 {
                assert(s.drop_last()[k] == s[k]);
            }
        }
    }
}

impl View for Element {
    type V = ElementDecl;

    open spec fn view(&self) -> ElementDecl {
        element_decl(*self)
    }
}

impl View for ComplexType {
    type V = ComplexTypeDecl;

    open spec fn view(&self) -> ComplexTypeDecl {
        complex_decl(*self)
    }
}

impl View for Attribute {
    type V = AttributeDecl;

    open spec fn view(&self) -> AttributeDecl {
        AttributeDecl { name: self.name@, required: self.required, builtin: self.builtin@ }
    }
}

/// The table that a list of named entries makes, a later entry replacing an
/// earlier one of the same name.
pub open spec fn entries_map<V: View>(s: Seq<(String, V)>) -> Map<Seq<char>, V::V>
    decreases s.len(),
{
    if s.len() == 0 {
        Map::empty()
    } else {
        entries_map(s.drop_last()).insert(s.last().0@, s.last().1@)
    }
}

impl View for Schema {
    type V = SchemaDecl;

    closed spec fn view(&self) -> SchemaDecl {
        SchemaDecl {
            target_namespace: opt_view(self.target_namespace),
            elements: entries_map(self.elements@),
            types: entries_map(self.types@),
            simple: entries_map(self.simple@),
        }
    }
}

proof fn lemma_entries_map_take<V: View>(s: Seq<(String, V)>, k: int, name: Seq<char>)
    requires
        0 < k <= s.len(),
    ensures
        s[k - 1].0@ == name ==> entries_map(s.take(k)).contains_key(name) && entries_map(
            s.take(k),
        )[name] == s[k - 1].1@,
        s[k - 1].0@ != name ==> (entries_map(s.take(k)).contains_key(name) == entries_map(
            s.take(k - 1),
        ).contains_key(name)) && entries_map(s.take(k))[name] == entries_map(s.take(k - 1))[name],
{
    assert(s.take(k).drop_last() =~= s.take(k - 1));
}

/// The entry named `name`, as the table of `entries` has it.
pub fn find_entry<'a, V: View>(entries: &'a Vec<(String, V)>, name: &str) -> (r: Option<&'a V>)
    ensures
        match r {
            Some(v) => entries_map(entries@).contains_key(name@) && entries_map(entries@)[name@]
                == v@,
            None => !entries_map(entries@).contains_key(name@),
        },
{
    let mut k: usize = entries.len();
    assert(entries@.take(k as int) =~= entries@);
    while k > 0
        invariant
            k <= entries@.len(),
            entries_map(entries@).contains_key(name@) == entries_map(
                entries@.take(k as int),
            ).contains_key(name@),
            entries_map(entries@)[name@] == entries_map(entries@.take(k as int))[name@],
        decreases k,
    {
        proof {
            lemma_entries_map_take(entries@, k as int, name@);
        }
        if same_text(entries[k - 1].0.as_str(), name) {
            return Some(&entries[k - 1].1);
        }
        k = k - 1;
    }
    assert(entries@.take(0) =~= Seq::<(String, V)>::empty());
    None
}

// ---------------------------------------------------------------------------
// Reading a schema document

/// The message of a refused schema.
pub open spec fn refusal(reason: Seq<char>) -> Seq<char> {
    "schema refused: "@ + reason
}

pub open spec fn attr(nodes: Seq<XmlNode>, i: int, name: Seq<char>) -> Option<Seq<char>> {
    attribute_value(nodes[i].attributes@, name)
}

/// Node `i` is the XML Schema element `name`.
pub open spec fn is_xs_node(nodes: Seq<XmlNode>, i: int, name: Seq<char>) -> bool {
    &&& 0 <= i < nodes.len()
    &&& nodes[i].element
    &&& nodes[i].name@ == name
    &&& opt_view(nodes[i].namespace) == Some(XS@)
}

/// The first of `ids` that is the XML Schema element `name`.
pub open spec fn first_xs(nodes: Seq<XmlNode>, ids: Seq<usize>, name: Seq<char>) -> Option<usize>
    decreases ids.len(),
{
    if ids.len() == 0 {
        None
    } else if is_xs_node(nodes, ids[0] as int, name) {
        Some(ids[0])
    } else {
        first_xs(nodes, ids.drop_first(), name)
    }
}

pub proof fn lemma_first_xs(nodes: Seq<XmlNode>, ids: Seq<usize>, name: Seq<char>)
    ensures
        first_xs(nodes, ids, name) matches Some(c) ==> ids.contains(c) && is_xs_node(
            nodes,
            c as int,
            name,
        ),
    decreases ids.len(),
{
    if ids.len() > 0 && !is_xs_node(nodes, ids[0] as int, name) {
        lemma_first_xs(nodes, ids.drop_first(), name);
        if let Some(c) = first_xs(nodes, ids.drop_first(), name) {
            let k = choose|k: int| 0 <= k < ids.drop_first().len() && ids.drop_first()[k] == c;
            assert(ids[k + 1] == c);
        }
    } else if ids.len() > 0 {
        assert(ids[0] == ids[0]);
    }
}

/// The value of attribute `name`, or the refusal that names it missing.
pub open spec fn required_attr(nodes: Seq<XmlNode>, i: int, name: Seq<char>) -> Result<
    Seq<char>,
    Seq<char>,
> {
    match attr(nodes, i, name) {
        Some(v) => Ok(v),
        None => Err(refusal("xs:"@ + nodes[i].name@ + " without "@ + name)),
    }
}

/// An occurrence bound: absent is 1, `unbounded` is `None`, and a value that
/// is not a `u32` numeral is unreadable.
pub open spec fn occurs_attr(nodes: Seq<XmlNode>, i: int, name: Seq<char>) -> Result<
    Option<u32>,
    (),
> {
    match attr(nodes, i, name) {
        None => Ok(Some(1)),
        Some(t) => if t == "unbounded"@ {
            Ok(None)
        } else {
            match unsigned_at_most(t, u32::MAX as int) {
                Some(v) => Ok(Some(v as u32)),
                None => Err(()),
            }
        },
    }
}

/// `minOccurs`: 1 where it is absent; `unbounded`, or a value that is not a
/// `u32` numeral, cannot be read as a minimum.
pub open spec fn min_occurs(nodes: Seq<XmlNode>, i: int) -> Result<u32, ()> {
    match occurs_attr(nodes, i, "minOccurs"@) {
        Ok(Some(v)) => Ok(v),
        _ => Err(()),
    }
}

/// The refusal of an occurrence bound that cannot be read.
pub open spec fn unreadable_bound(name: Seq<char>) -> Seq<char> {
    refusal("xs:element with an unreadable "@ + name)
}

/// The base of a simple type's `xs:restriction`, `string` where there is none.
pub open spec fn simple_base_of(nodes: Seq<XmlNode>, i: int) -> Seq<char> {
    match first_xs(nodes, kids(nodes, i), "restriction"@) {
        Some(r) => match attr(nodes, r as int, "base"@) {
            Some(b) => local_part(b),
            None => "string"@,
        },
        None => "string"@,
    }
}

/// The names of the XML Schema built-in types this contract knows.
pub open spec fn is_builtin_name(local: Seq<char>) -> bool {
    ||| local == "string"@
    ||| local == "normalizedString"@
    ||| local == "token"@
    ||| local == "anyURI"@
    ||| local == "anyType"@
    ||| local == "anySimpleType"@
    ||| local == "QName"@
    ||| local == "NMTOKEN"@
    ||| local == "Name"@
    ||| local == "NCName"@
    ||| local == "ID"@
    ||| local == "IDREF"@
    ||| local == "language"@
    ||| local == "boolean"@
    ||| local == "decimal"@
    ||| local == "double"@
    ||| local == "float"@
    ||| local == "integer"@
    ||| local == "int"@
    ||| local == "long"@
    ||| local == "short"@
    ||| local == "byte"@
    ||| local == "unsignedLong"@
    ||| local == "unsignedInt"@
    ||| local == "unsignedShort"@
    ||| local == "unsignedByte"@
    ||| local == "positiveInteger"@
    ||| local == "nonNegativeInteger"@
    ||| local == "negativeInteger"@
    ||| local == "nonPositiveInteger"@
    ||| local == "date"@
    ||| local == "dateTime"@
    ||| local == "time"@
    ||| local == "base64Binary"@
    ||| local == "hexBinary"@
    ||| local == "duration"@
    ||| local == "gYear"@
    ||| local == "gYearMonth"@
    ||| local == "gMonth"@
    ||| local == "gDay"@
    ||| local == "gMonthDay"@
}

/// What a `type` attribute names: a simple type of the schema (as its
/// base), a built-in, or a complex type by name.
pub open spec fn kind_named(simple: Map<Seq<char>, Seq<char>>, tname: Seq<char>) -> KindDecl {
    let local = local_part(tname);
    if simple.contains_key(local) {
        KindDecl::Builtin(simple[local])
    } else if is_builtin_name(local) {
        KindDecl::Builtin(local)
    } else {
        KindDecl::Named(local)
    }
}

/// The built-in that a type name stands for.
pub open spec fn builtin_named(simple: Map<Seq<char>, Seq<char>>, tname: Seq<char>) -> Seq<
    char,
> {
    let local = local_part(tname);
    if simple.contains_key(local) {
        simple[local]
    } else {
        local
    }
}

/// The declaration of an `xs:attribute` that has a name.
pub open spec fn attribute_decl_of(nodes: Seq<XmlNode>, simple: Map<Seq<char>, Seq<char>>, c: int) -> AttributeDecl {
    AttributeDecl {
        name: attr(nodes, c, "name"@).unwrap(),
        required: attr(nodes, c, "use"@) == Some("required"@),
        builtin: builtin_named(
            simple,
            match attr(nodes, c, "type"@) {
                Some(t) => t,
                None => "string"@,
            },
        ),
    }
}

/// The attributes that the `xs:attribute` children among `ids` declare,
/// those without a name left out.
pub open spec fn attribute_decls(nodes: Seq<XmlNode>, simple: Map<Seq<char>, Seq<char>>, ids: Seq<usize>) -> Seq<AttributeDecl>
    decreases ids.len(),
{
    if ids.len() == 0 {
        Seq::empty()
    } else {
        let rest = attribute_decls(nodes, simple, ids.drop_last());
        let c = ids.last() as int;
        if is_xs_node(nodes, c, "attribute"@) && attr(nodes, c, "name"@) is Some {
            rest.push(attribute_decl_of(nodes, simple, c))
        } else {
            rest
        }
    }
}

/// The first `xs:extension` or `xs:restriction` among `ids`.
pub open spec fn first_derivation(nodes: Seq<XmlNode>, ids: Seq<usize>) -> Option<usize>
    decreases ids.len(),
{
    if ids.len() == 0 {
        None
    } else if is_xs_node(nodes, ids[0] as int, "extension"@) || is_xs_node(
        nodes,
        ids[0] as int,
        "restriction"@,
    ) {
        Some(ids[0])
    } else {
        first_derivation(nodes, ids.drop_first())
    }
}

/// The declarations of the first `k` element children of compositor `i`.
pub open spec fn particles_upto(nodes: Seq<XmlNode>, simple: Map<Seq<char>, Seq<char>>, i: int, k: int) -> Result<Seq<ElementDecl>, Seq<char>>
    decreases nodes.len() - i, k,
{
    if k <= 0 || k > kids(nodes, i).len() || i < 0 || i >= nodes.len() {
        Ok(Seq::empty())
    } else {
        match particles_upto(nodes, simple, i, k - 1) {
            Err(e) => Err(e),
            Ok(ps) => {
                let c = kids(nodes, i)[k - 1] as int;
                let name = nodes[c].name@;
                if name == "element"@ {
                    proof {
                        lemma_kids(nodes, i);
                    }
                    match element_from(nodes, simple, c) {
                        Err(e) => Err(e),
                        Ok(x) => Ok(ps.push(x)),
                    }
                } else if name == "annotation"@ {
                    Ok(ps)
                } else {
                    Err(refusal("xs:"@ + name + " inside a compositor is not supported"@))
                }
            },
        }
    }
}

/// The state of reading a complex type after its first `k` element
/// children: its attributes and its content so far.
pub open spec fn complex_upto(nodes: Seq<XmlNode>, simple: Map<Seq<char>, Seq<char>>, i: int, k: int) -> Result<(Seq<AttributeDecl>, ContentDecl), Seq<char>>
    decreases nodes.len() - i, k,
{
    if k <= 0 || k > kids(nodes, i).len() || i < 0 || i >= nodes.len() {
        Ok((attribute_decls(nodes, simple, kids(nodes, i)), ContentDecl::Empty))
    } else {
        match complex_upto(nodes, simple, i, k - 1) {
            Err(e) => Err(e),
            Ok((attributes, content)) => {
                let c = kids(nodes, i)[k - 1] as int;
                let name = nodes[c].name@;
                proof {
                    lemma_kids(nodes, i);
                }
                if name == "sequence"@ || name == "all"@ || name == "choice"@ {
                    match particles_upto(nodes, simple, c, kids(nodes, c).len() as int) {
                        Err(e) => Err(e),
                        Ok(ps) => Ok(
                            (
                                attributes,
                                if name == "sequence"@ {
                                    ContentDecl::Sequence(ps)
                                } else if name == "all"@ {
                                    ContentDecl::All(ps)
                                } else {
                                    ContentDecl::Choice(ps)
                                },
                            ),
                        ),
                    }
                } else if name == "simpleContent"@ {
                    match first_derivation(nodes, kids(nodes, c)) {
                        None => Err(refusal("xs:simpleContent without extension"@)),
                        Some(x) => {
                            let base = match attr(nodes, x as int, "base"@) {
                                Some(b) => b,
                                None => "string"@,
                            };
                            Ok(
                                (
                                    attributes + attribute_decls(nodes, simple, kids(nodes, x as int)),
                                    ContentDecl::Simple(builtin_named(simple, base)),
                                ),
                            )
                        },
                    }
                } else if name == "attribute"@ || name == "annotation"@ {
                    Ok((attributes, content))
                } else {
                    Err(refusal("xs:"@ + name + " is not supported"@))
                }
            },
        }
    }
}

/// The complex type that node `i` declares, or the refusal.
pub open spec fn complex_from(nodes: Seq<XmlNode>, simple: Map<Seq<char>, Seq<char>>, i: int) -> Result<ComplexTypeDecl, Seq<char>>
    decreases nodes.len() - i, kids(nodes, i).len() + 1,
{
    match complex_upto(nodes, simple, i, kids(nodes, i).len() as int) {
        Err(e) => Err(e),
        Ok((attributes, content)) => Ok(ComplexTypeDecl { attributes, content }),
    }
}

/// The element that node `i` declares, or the refusal.
pub open spec fn element_from(nodes: Seq<XmlNode>, simple: Map<Seq<char>, Seq<char>>, i: int) -> Result<ElementDecl, Seq<char>>
    decreases nodes.len() - i, 0int,
{
    if i < 0 || i >= nodes.len() {
        Err(Seq::empty())
    } else if attr(nodes, i, "ref"@) is Some {
        Err(refusal("xs:element ref is not supported"@))
    } else {
        match required_attr(nodes, i, "name"@) {
            Err(e) => Err(e),
            Ok(name) => {
                let kind: Result<KindDecl, Seq<char>> = match attr(nodes, i, "type"@) {
                    Some(t) => Ok(kind_named(simple, t)),
                    None => match first_xs(nodes, kids(nodes, i), "complexType"@) {
                        Some(c) => {
                            proof {
                                lemma_kids(nodes, i);
                                lemma_first_xs(nodes, kids(nodes, i), "complexType"@);
                            }
                            match complex_from(nodes, simple, c as int) {
                                Err(e) => Err(e),
                                Ok(ct) => Ok(KindDecl::Inline(Box::new(ct))),
                            }
                        },
                        None => match first_xs(nodes, kids(nodes, i), "simpleType"@) {
                            Some(s) => Ok(KindDecl::Builtin(simple_base_of(nodes, s as int))),
                            None => Ok(KindDecl::Any),
                        },
                    },
                };
                match kind {
                    Err(e) => Err(e),
                    Ok(kind) => match min_occurs(nodes, i) {
                        Err(()) => Err(unreadable_bound("minOccurs"@)),
                        Ok(min) => match occurs_attr(nodes, i, "maxOccurs"@) {
                            Err(()) => Err(unreadable_bound("maxOccurs"@)),
                            Ok(max) => Ok(ElementDecl { name, kind, min, max }),
                        },
                    },
                }
            },
        }
    }
}

/// The simple types among the first `k` of `ids`, each named by its `name`.
pub open spec fn simple_upto(nodes: Seq<XmlNode>, ids: Seq<usize>) -> Result<Map<Seq<char>, Seq<char>>, Seq<char>>
    decreases ids.len(),
{
    if ids.len() == 0 {
        Ok(Map::empty())
    } else {
        match simple_upto(nodes, ids.drop_last()) {
            Err(e) => Err(e),
            Ok(m) => {
                let c = ids.last() as int;
                if is_xs_node(nodes, c, "simpleType"@) {
                    match required_attr(nodes, c, "name"@) {
                        Err(e) => Err(e),
                        Ok(name) => Ok(m.insert(name, simple_base_of(nodes, c))),
                    }
                } else {
                    Ok(m)
                }
            },
        }
    }
}

/// Whether every built-in that `simple` maps a name to is a local name,
/// with no colon.
pub open spec fn plain_bases(simple: Map<Seq<char>, Seq<char>>) -> bool {
    forall|n: Seq<char>| simple.contains_key(n) ==> !(#[trigger] simple[n]).contains(':')
}

proof fn lemma_simple_base_plain(nodes: Seq<XmlNode>, i: int)
    ensures
        !simple_base_of(nodes, i).contains(':'),
{
    reveal_strlit("string");
    if let Some(r) = first_xs(nodes, kids(nodes, i), "restriction"@) {
        if let Some(b) = attr(nodes, r as int, "base"@) {
            lemma_local_part_plain(b);
        }
    }
    if simple_base_of(nodes, i) == "string"@ {
        assert forall|k: int| 0 <= k < "string"@.len() implies "string"@[k] != ':' by {}
    }
}

proof fn lemma_simple_bases_plain(nodes: Seq<XmlNode>, ids: Seq<usize>)
    ensures
        simple_upto(nodes, ids) matches Ok(m) ==> plain_bases(m),
    decreases ids.len(),
{
    if ids.len() > 0 {
        lemma_simple_bases_plain(nodes, ids.drop_last());
        lemma_simple_base_plain(nodes, ids.last() as int);
    }
}

/// The top-level element and complex type declarations among `ids`.
pub open spec fn decls_upto(nodes: Seq<XmlNode>, simple: Map<Seq<char>, Seq<char>>, ids: Seq<usize>) -> Result<(Map<Seq<char>, ElementDecl>, Map<Seq<char>, ComplexTypeDecl>), Seq<char>>
    decreases ids.len(),
{
    if ids.len() == 0 {
        Ok((Map::empty(), Map::empty()))
    } else {
        match decls_upto(nodes, simple, ids.drop_last()) {
            Err(e) => Err(e),
            Ok((elements, types)) => {
                let c = ids.last() as int;
                let name = nodes[c].name@;
                if name == "element"@ {
                    match element_from(nodes, simple, c) {
                        Err(e) => Err(e),
                        Ok(x) => Ok((elements.insert(x.name, x), types)),
                    }
                } else if name == "complexType"@ {
                    match required_attr(nodes, c, "name"@) {
                        Err(e) => Err(e),
                        Ok(n) => match complex_from(nodes, simple, c) {
                            Err(e) => Err(e),
                            Ok(ct) => Ok((elements, types.insert(n, ct))),
                        },
                    }
                } else if name == "simpleType"@ || name == "annotation"@ {
                    Ok((elements, types))
                } else {
                    Err(refusal("xs:"@ + name + " is not supported"@))
                }
            },
        }
    }
}

/// The schema that the document rooted at node `root` declares, or the
/// refusal.
pub open spec fn schema_of(nodes: Seq<XmlNode>, root: int) -> Result<SchemaDecl, Seq<char>> {
    if !is_xs_node(nodes, root, "schema"@) {
        Err(refusal("the document root is not xs:schema"@))
    } else {
        match simple_upto(nodes, kids(nodes, root)) {
            Err(e) => Err(e),
            Ok(simple) => match decls_upto(nodes, simple, kids(nodes, root)) {
                Err(e) => Err(e),
                Ok((elements, types)) => Ok(
                    SchemaDecl {
                        target_namespace: attr(nodes, root, "targetNamespace"@),
                        elements,
                        types,
                        simple,
                    },
                ),
            },
        }
    }
}

/// The schema that `text` declares, or the refusal.
pub open spec fn schema_of_text(text: Seq<char>) -> Result<SchemaDecl, Seq<char>> {
    match roxmltree_parse(text) {
        Err((message, row, col)) => Err(refusal(message@)),
        Ok(nodes) => if nodes_ordered(nodes) && root_element(nodes) is Some {
            schema_of(nodes, root_element(nodes).unwrap() as int)
        } else {
            Err(refusal(crate::xml::no_root_message()))
        },
    }
}

// ---------------------------------------------------------------------------
// Reading, executably

fn refuse(reason: &str) -> (r: ContractError)
    ensures
        r.message@ == refusal(reason@),
{
    let mut message = "schema refused: ".to_owned();
    message.append(reason);
    ContractError { message }
}

fn is_xs(doc: &XmlDocument, i: usize, name: &str) -> (r: bool)
    requires
        i < doc.nodes@.len(),
    ensures
        r == is_xs_node(doc.nodes@, i as int, name@),
{
    let node = &doc.nodes[i];
    node.element && same_text(node.name.as_str(), name) && match &node.namespace {
        Some(ns) => same_text(ns.as_str(), XS),
        None => false,
    }
}

fn required(doc: &XmlDocument, i: usize, name: &str) -> (r: Result<String, ContractError>)
    requires
        i < doc.nodes@.len(),
    ensures
        match r {
            Ok(v) => required_attr(doc.nodes@, i as int, name@) == Ok::<Seq<char>, Seq<char>>(v@),
            Err(e) => required_attr(doc.nodes@, i as int, name@) == Err::<Seq<char>, Seq<char>>(
                e.message@,
            ),
        },
{
    match doc.attribute(i, name) {
        Some(v) => Ok(v.to_owned()),
        None => {
            let mut reason = "xs:".to_owned();
            reason.append(doc.nodes[i].name.as_str());
            reason.append(" without ");
            reason.append(name);
            Err(refuse(reason.as_str()))
        },
    }
}

/// The refusal of the occurrence bound `name`, which cannot be read.
fn refuse_bound(name: &str) -> (r: ContractError)
    ensures
        r.message@ == unreadable_bound(name@),
{
    let mut reason = "xs:element with an unreadable ".to_owned();
    reason.append(name);
    refuse(reason.as_str())
}

/// `Ok(None)` is unbounded; `Err` when the attribute is present but
/// unreadable.
fn occurs(doc: &XmlDocument, i: usize, name: &str) -> (r: Result<Option<u32>, ()>)
    requires
        i < doc.nodes@.len(),
    ensures
        r == occurs_attr(doc.nodes@, i as int, name@),
{
    match doc.attribute(i, name) {
        None => Ok(Some(1)),
        Some(t) => {
            if same_text(t, "unbounded") {
                Ok(None)
            } else {
                let cs = chars_of(t);
                match parse_unsigned(cs.as_slice(), 4294967295) {
                    Some(v) => Ok(Some(v as u32)),
                    None => Err(()),
                }
            }
        },
    }
}

fn first_xs_among(doc: &XmlDocument, ids: &Vec<usize>, name: &str) -> (r: Option<usize>)
    ensures
        r == first_xs(doc.nodes@, ids@, name@),
{
    let mut k: usize = 0;
    assert(ids@.skip(0) =~= ids@);
    while k < ids.len()
        invariant
            k <= ids@.len(),
            first_xs(doc.nodes@, ids@, name@) == first_xs(doc.nodes@, ids@.skip(k as int), name@),
        decreases ids@.len() - k,
    {
        let c = ids[k];
        assert(ids@.skip(k as int)[0] == c);
        if c < doc.nodes.len() && is_xs(doc, c, name) {
            return Some(c);
        }
        assert(ids@.skip(k as int).drop_first() =~= ids@.skip(k + 1));
        k = k + 1;
    }
    None
}

fn first_derivation_among(doc: &XmlDocument, ids: &Vec<usize>) -> (r: Option<usize>)
    ensures
        r == first_derivation(doc.nodes@, ids@),
{
    let mut k: usize = 0;
    assert(ids@.skip(0) =~= ids@);
    while k < ids.len()
        invariant
            k <= ids@.len(),
            first_derivation(doc.nodes@, ids@) == first_derivation(doc.nodes@, ids@.skip(k as int)),
        decreases ids@.len() - k,
    {
        let c = ids[k];
        assert(ids@.skip(k as int)[0] == c);
        if c < doc.nodes.len() && (is_xs(doc, c, "extension") || is_xs(doc, c, "restriction")) {
            return Some(c);
        }
        assert(ids@.skip(k as int).drop_first() =~= ids@.skip(k + 1));
        k = k + 1;
    }
    None
}

fn simple_base(doc: &XmlDocument, i: usize) -> (r: String)
    requires
        i < doc.nodes@.len(),
    ensures
        r@ == simple_base_of(doc.nodes@, i as int),
{
    let ks = doc.element_children(i);
    let found = first_xs_among(doc, &ks, "restriction");
    proof {
        lemma_first_xs(doc.nodes@, ks@, "restriction"@);
    }
    match found {
        Some(r) => match doc.attribute(r, "base") {
            Some(b) => local_name(b).to_owned(),
            None => "string".to_owned(),
        },
        None => "string".to_owned(),
    }
}

/// Whether `local` is one of the built-in types this contract knows.
pub fn is_builtin(local: &str) -> (r: bool)
    ensures
        r == is_builtin_name(local@),
{
    same_text(local, "string") || same_text(local, "normalizedString") || same_text(local, "token")
        || same_text(local, "anyURI") || same_text(local, "anyType") || same_text(
        local,
        "anySimpleType",
    ) || same_text(local, "QName") || same_text(local, "NMTOKEN") || same_text(local, "Name")
        || same_text(local, "NCName") || same_text(local, "ID") || same_text(local, "IDREF")
        || same_text(local, "language") || same_text(local, "boolean") || same_text(local, "decimal")
        || same_text(local, "double") || same_text(local, "float") || same_text(local, "integer")
        || same_text(local, "int") || same_text(local, "long") || same_text(local, "short")
        || same_text(local, "byte") || same_text(local, "unsignedLong") || same_text(
        local,
        "unsignedInt",
    ) || same_text(local, "unsignedShort") || same_text(local, "unsignedByte") || same_text(
        local,
        "positiveInteger",
    ) || same_text(local, "nonNegativeInteger") || same_text(local, "negativeInteger")
        || same_text(local, "nonPositiveInteger") || same_text(local, "date") || same_text(
        local,
        "dateTime",
    ) || same_text(local, "time") || same_text(local, "base64Binary") || same_text(
        local,
        "hexBinary",
    ) || same_text(local, "duration") || same_text(local, "gYear") || same_text(
        local,
        "gYearMonth",
    ) || same_text(local, "gMonth") || same_text(local, "gDay") || same_text(local, "gMonthDay")
}

pub open spec fn attribute_views(v: Seq<Attribute>) -> Seq<AttributeDecl> {
    v.map_values(|a: Attribute| a@)
}

proof fn lemma_particles_settled(nodes: Seq<XmlNode>, simple: Map<Seq<char>, Seq<char>>, i: int, k: int, k2: int)
    requires
        0 <= i < nodes.len(),
        0 <= k <= k2 <= kids(nodes, i).len(),
        particles_upto(nodes, simple, i, k) is Err,
    ensures
        particles_upto(nodes, simple, i, k2) == particles_upto(nodes, simple, i, k),
    decreases k2,
{
    if k2 > k {
        lemma_particles_settled(nodes, simple, i, k, k2 - 1);
    }
}

proof fn lemma_complex_settled(nodes: Seq<XmlNode>, simple: Map<Seq<char>, Seq<char>>, i: int, k: int, k2: int)
    requires
        0 <= i < nodes.len(),
        0 <= k <= k2 <= kids(nodes, i).len(),
        complex_upto(nodes, simple, i, k) is Err,
    ensures
        complex_upto(nodes, simple, i, k2) == complex_upto(nodes, simple, i, k),
    decreases k2,
{
    if k2 > k {
        lemma_complex_settled(nodes, simple, i, k, k2 - 1);
    }
}

pub open spec fn complex_state(attributes: Seq<Attribute>, content: Content) -> (Seq<AttributeDecl>, ContentDecl) {
    (attribute_views(attributes), content_decl(content))
}

proof fn lemma_first_derivation(nodes: Seq<XmlNode>, ids: Seq<usize>)
    ensures
        first_derivation(nodes, ids) matches Some(c) ==> c < nodes.len(),
    decreases ids.len(),
{
    if ids.len() > 0 {
        lemma_first_derivation(nodes, ids.drop_first());
    }
}

impl Schema {
    /// Every simple type stands for a built-in by its local name.
    #[verifier::type_invariant]
    closed spec fn bases_are_local(&self) -> bool {
        plain_bases(entries_map(self.simple@))
    }

    /// What a `type` attribute names.
        pub fn kind_of(&self, tname: &str) -> (r: Kind)
        ensures
            kind_decl(r) == kind_named(self@.simple, tname@),
            r matches Kind::Builtin(b) ==> !b@.contains(':'),
            r matches Kind::Named(n) ==> !n@.contains(':'),
    {
        proof {
            use_type_invariant(self);
            lemma_local_part_plain(tname@);
        }
        let local = local_name(tname);
        match find_entry(&self.simple, local) {
            Some(base) => Kind::Builtin(base.clone()),
            None => if is_builtin(local) {
                Kind::Builtin(local.to_owned())
            } else {
                Kind::Named(local.to_owned())
            },
        }
    }

    /// The built-in that a type name stands for.
        pub fn builtin_of(&self, tname: &str) -> (r: String)
        ensures
            r@ == builtin_named(self@.simple, tname@),
            !r@.contains(':'),
    {
        proof {
            use_type_invariant(self);
            lemma_local_part_plain(tname@);
        }
        let local = local_name(tname);
        match find_entry(&self.simple, local) {
            Some(base) => base.clone(),
            None => local.to_owned(),
        }
    }

    fn attributes(&self, doc: &XmlDocument, i: usize) -> (r: Vec<Attribute>)
        requires
            i < doc.nodes@.len(),
        ensures
            attribute_views(r@) == attribute_decls(doc.nodes@, entries_map(self.simple@), kids(doc.nodes@, i as int)),
    {
        let ghost nodes = doc.nodes@;
        let ghost map = entries_map(self.simple@);
        let ks = doc.element_children(i);
        let mut r: Vec<Attribute> = Vec::new();
        let mut k: usize = 0;
        assert(ks@.take(0) =~= Seq::<usize>::empty());
        while k < ks.len()
            invariant
                nodes == doc.nodes@,
                map == entries_map(self.simple@),
                k <= ks@.len(),
                attribute_views(r@) == attribute_decls(nodes, map, ks@.take(k as int)),
            decreases ks@.len() - k,
        {
            let c = ks[k];
            assert(ks@.take(k + 1).drop_last() =~= ks@.take(k as int));
            if c < doc.nodes.len() && is_xs(doc, c, "attribute") {
                match doc.attribute(c, "name") {
                    Some(name) => {
                        let required = match doc.attribute(c, "use") {
                            Some(u) => same_text(u, "required"),
                            None => false,
                        };
                        proof {
                            reveal_strlit("required");
                        }
                        let tname = match doc.attribute(c, "type") {
                            Some(t) => t,
                            None => "string",
                        };
                        let builtin = self.builtin_of(tname);
                        let a = Attribute { name: name.to_owned(), required, builtin };
                        let ghost before = r@;
                        r.push(a);
                        assert(attribute_views(r@) =~= attribute_views(before).push(a@));
                    },
                    None => {},
                }
            }
            k = k + 1;
        }
        assert(ks@.take(k as int) =~= ks@);
        r
    }

    /// The declarations of the elements that compositor `i` holds.
    fn particles(&self, doc: &XmlDocument, i: usize) -> (r: Result<Vec<Element>, ContractError>)
        requires
            doc.wf(),
            i < doc.nodes@.len(),
        ensures
            match r {
                Ok(v) => particles_upto(doc.nodes@, entries_map(self.simple@), i as int, kids(doc.nodes@, i as int).len() as int)
                    == Ok::<Seq<ElementDecl>, Seq<char>>(element_decls(v@)),
                Err(e) => particles_upto(doc.nodes@, entries_map(self.simple@), i as int, kids(doc.nodes@, i as int).len() as int)
                    == Err::<Seq<ElementDecl>, Seq<char>>(e.message@),
            },
        decreases doc.nodes@.len() - i,
    {
        let ghost nodes = doc.nodes@;
        let ghost map = entries_map(self.simple@);
        let ks = doc.element_children(i);
        proof {
            lemma_kids(nodes, i as int);
        }
        let mut r: Vec<Element> = Vec::new();
        let mut k: usize = 0;
        while k < ks.len()
            invariant
                doc.wf(),
                i < nodes.len(),
                nodes == doc.nodes@,
                map == entries_map(self.simple@),
                ks@ == kids(nodes, i as int),
                forall|q: int| 0 <= q < ks@.len() ==> i < #[trigger] ks@[q] < nodes.len(),
                k <= ks@.len(),
                particles_upto(nodes, map, i as int, k as int) == Ok::<Seq<ElementDecl>, Seq<char>>(element_decls(r@)),
            decreases ks@.len() - k,
        {
            let c = ks[k];
            let name = doc.nodes[c].name.as_str();
            if same_text(name, "element") {
                match self.element(doc, c) {
                    Err(e) => {
                        proof {
                            lemma_particles_settled(nodes, map, i as int, k + 1, ks@.len() as int);
                        }
                        return Err(e);
                    },
                    Ok(x) => {
                        let ghost before = r@;
                        r.push(x);
                        assert(r@.drop_last() =~= before);
                    },
                }
            } else if same_text(name, "annotation") {
            } else {
                let mut reason = "xs:".to_owned();
                reason.append(name);
                reason.append(" inside a compositor is not supported");
                proof {
                    lemma_particles_settled(nodes, map, i as int, k + 1, ks@.len() as int);
                }
                return Err(refuse(reason.as_str()));
            }
            k = k + 1;
        }
        Ok(r)
    }

    /// The complex type that node `i` declares.
    fn complex(&self, doc: &XmlDocument, i: usize) -> (r: Result<ComplexType, ContractError>)
        requires
            doc.wf(),
            i < doc.nodes@.len(),
        ensures
            match r {
                Ok(ct) => complex_from(doc.nodes@, entries_map(self.simple@), i as int) == Ok::<ComplexTypeDecl, Seq<char>>(ct@),
                Err(e) => complex_from(doc.nodes@, entries_map(self.simple@), i as int) == Err::<ComplexTypeDecl, Seq<char>>(e.message@),
            },
        decreases doc.nodes@.len() - i,
    {
        let ghost nodes = doc.nodes@;
        let ghost map = entries_map(self.simple@);
        let ks = doc.element_children(i);
        proof {
            lemma_kids(nodes, i as int);
        }
        let mut attrs = self.attributes(doc, i);
        let mut content = Content::Empty;
        let mut k: usize = 0;
        while k < ks.len()
            invariant
                doc.wf(),
                i < nodes.len(),
                nodes == doc.nodes@,
                map == entries_map(self.simple@),
                ks@ == kids(nodes, i as int),
                forall|q: int| 0 <= q < ks@.len() ==> i < #[trigger] ks@[q] < nodes.len(),
                k <= ks@.len(),
                complex_upto(nodes, map, i as int, k as int) == Ok::<(Seq<AttributeDecl>, ContentDecl), Seq<char>>(complex_state(attrs@, content)),
            decreases ks@.len() - k,
        {
            let c = ks[k];
            let name = doc.nodes[c].name.as_str();
            if same_text(name, "sequence") || same_text(name, "all") || same_text(name, "choice") {
                match self.particles(doc, c) {
                    Err(e) => {
                        proof {
                            lemma_complex_settled(nodes, map, i as int, k + 1, ks@.len() as int);
                        }
                        return Err(e);
                    },
                    Ok(ps) => {
                        if same_text(name, "sequence") {
                            content = Content::Sequence(ps);
                        } else if same_text(name, "all") {
                            content = Content::All(ps);
                        } else {
                            content = Content::Choice(ps);
                        }
                    },
                }
            } else if same_text(name, "simpleContent") {
                let cks = doc.element_children(c);
                match first_derivation_among(doc, &cks) {
                    None => {
                        proof {
                            reveal_strlit("xs:simpleContent without extension");
                            lemma_complex_settled(nodes, map, i as int, k + 1, ks@.len() as int);
                        }
                        return Err(refuse("xs:simpleContent without extension"));
                    },
                    Some(x) => {
                        proof {
                            lemma_first_derivation(nodes, cks@);
                        }
                        let base = match doc.attribute(x, "base") {
                            Some(b) => b,
                            None => "string",
                        };
                        content = Content::Simple(self.builtin_of(base));
                        let mut more = self.attributes(doc, x);
                        let ghost before = attrs@;
                        let ghost extra = more@;
                        attrs.append(&mut more);
                        assert(attribute_views(attrs@) =~= attribute_views(before) + attribute_views(extra));
                    },
                }
            } else if same_text(name, "attribute") || same_text(name, "annotation") {
            } else {
                let mut reason = "xs:".to_owned();
                reason.append(name);
                reason.append(" is not supported");
                proof {
                    lemma_complex_settled(nodes, map, i as int, k + 1, ks@.len() as int);
                }
                return Err(refuse(reason.as_str()));
            }
            k = k + 1;
        }
        Ok(ComplexType { attributes: attrs, content })
    }

    /// The element that node `i` declares.
    fn element(&self, doc: &XmlDocument, i: usize) -> (r: Result<Element, ContractError>)
        requires
            doc.wf(),
            i < doc.nodes@.len(),
        ensures
            match r {
                Ok(x) => element_from(doc.nodes@, entries_map(self.simple@), i as int) == Ok::<ElementDecl, Seq<char>>(x@),
                Err(e) => element_from(doc.nodes@, entries_map(self.simple@), i as int) == Err::<ElementDecl, Seq<char>>(e.message@),
            },
        decreases doc.nodes@.len() - i,
    {
        let ghost nodes = doc.nodes@;
        if doc.attribute(i, "ref").is_some() {
            proof {
                reveal_strlit("xs:element ref is not supported");
            }
            return Err(refuse("xs:element ref is not supported"));
        }
        let name = match required(doc, i, "name") {
            Ok(n) => n,
            Err(e) => return Err(e),
        };
        let kind = match doc.attribute(i, "type") {
            Some(t) => self.kind_of(t),
            None => {
                let ks = doc.element_children(i);
                proof {
                    lemma_kids(nodes, i as int);
                    lemma_first_xs(nodes, ks@, "complexType"@);
                    lemma_first_xs(nodes, ks@, "simpleType"@);
                }
                match first_xs_among(doc, &ks, "complexType") {
                    Some(c) => match self.complex(doc, c) {
                        Ok(ct) => Kind::Inline(Box::new(ct)),
                        Err(e) => return Err(e),
                    },
                    None => match first_xs_among(doc, &ks, "simpleType") {
                        Some(st) => Kind::Builtin(simple_base(doc, st)),
                        None => Kind::Any,
                    },
                }
            },
        };
        let min = match occurs(doc, i, "minOccurs") {
            Ok(Some(v)) => v,
            _ => return Err(refuse_bound("minOccurs")),
        };
        let max = match occurs(doc, i, "maxOccurs") {
            Ok(o) => o,
            Err(()) => return Err(refuse_bound("maxOccurs")),
        };
        Ok(Element { name, kind, min, max })
    }
}

proof fn lemma_simple_settled(nodes: Seq<XmlNode>, ids: Seq<usize>, k: int)
    requires
        0 <= k <= ids.len(),
        simple_upto(nodes, ids.take(k)) is Err,
    ensures
        simple_upto(nodes, ids) == simple_upto(nodes, ids.take(k)),
    decreases ids.len() - k,
{
    if k < ids.len() {
        assert(ids.take(k + 1).drop_last() =~= ids.take(k));
        lemma_simple_settled(nodes, ids, k + 1);
    } else {
        assert(ids.take(k) =~= ids);
    }
}

proof fn lemma_decls_settled(nodes: Seq<XmlNode>, simple: Map<Seq<char>, Seq<char>>, ids: Seq<usize>, k: int)
    requires
        0 <= k <= ids.len(),
        decls_upto(nodes, simple, ids.take(k)) is Err,
    ensures
        decls_upto(nodes, simple, ids) == decls_upto(nodes, simple, ids.take(k)),
    decreases ids.len() - k,
{
    if k < ids.len() {
        assert(ids.take(k + 1).drop_last() =~= ids.take(k));
        lemma_decls_settled(nodes, simple, ids, k + 1);
    } else {
        assert(ids.take(k) =~= ids);
    }
}

proof fn lemma_entries_push<V: View>(s: Seq<(String, V)>, x: (String, V))
    ensures
        entries_map(s.push(x)) == entries_map(s).insert(x.0@, x.1@),
{
    assert(s.push(x).drop_last() =~= s);
}

impl Schema {
    /// The schema that the document `doc` declares.
    ///
    /// # Errors
    /// The document must be rooted at `xs:schema` and stay within the subset
    /// this module documents.
    pub fn from_document(doc: &XmlDocument) -> (r: Result<Schema, ContractError>)
        requires
            doc.wf(),
        ensures
            match r {
                Ok(s) => schema_of(doc.nodes@, doc.root as int) == Ok::<SchemaDecl, Seq<char>>(s@),
                Err(e) => schema_of(doc.nodes@, doc.root as int) == Err::<SchemaDecl, Seq<char>>(e.message@),
            },
    {
        let ghost nodes = doc.nodes@;
        let root = doc.root;
        proof {
            lemma_root(nodes);
        }
        if !is_xs(doc, root, "schema") {
            proof {
                reveal_strlit("the document root is not xs:schema");
            }
            return Err(refuse("the document root is not xs:schema"));
        }
        let ks = doc.element_children(root);
        proof {
            lemma_kids(nodes, root as int);
        }
        // Simple types first, so an element declared before its type resolves.
        let mut simple: Vec<(String, String)> = Vec::new();
        let mut k: usize = 0;
        assert(ks@.take(0) =~= Seq::<usize>::empty());
        while k < ks.len()
            invariant
                doc.wf(),
                root < nodes.len(),
                root == doc.root,
                is_xs_node(nodes, root as int, "schema"@),
                nodes == doc.nodes@,
                ks@ == kids(nodes, root as int),
                forall|q: int| 0 <= q < ks@.len() ==> root < #[trigger] ks@[q] < nodes.len(),
                k <= ks@.len(),
                simple_upto(nodes, ks@.take(k as int)) == Ok::<Map<Seq<char>, Seq<char>>, Seq<char>>(entries_map(simple@)),
            decreases ks@.len() - k,
        {
            let c = ks[k];
            assert(ks@.take(k + 1).drop_last() =~= ks@.take(k as int));
            if is_xs(doc, c, "simpleType") {
                match required(doc, c, "name") {
                    Err(e) => {
                        proof {
                            assert(ks@.take(k + 1).last() == c);
                            assert(simple_upto(nodes, ks@.take(k + 1)) == Err::<Map<Seq<char>, Seq<char>>, Seq<char>>(e.message@));
                            lemma_simple_settled(nodes, ks@, k + 1);
                            assert(ks@.take(ks@.len() as int) =~= ks@);
                        }
                        return Err(e);
                    },
                    Ok(name) => {
                        let base = simple_base(doc, c);
                        proof {
                            lemma_entries_push(simple@, (name, base));
                        }
                        simple.push((name, base));
                    },
                }
            }
            k = k + 1;
        }
        assert(ks@.take(k as int) =~= ks@);
        let target_namespace = match doc.attribute(root, "targetNamespace") {
            Some(t) => Some(t.to_owned()),
            None => None,
        };
        proof {
            lemma_simple_bases_plain(nodes, ks@);
        }
        let schema = Schema { target_namespace, elements: Vec::new(), types: Vec::new(), simple };
        let mut elements: Vec<(String, Element)> = Vec::new();
        let mut types: Vec<(String, ComplexType)> = Vec::new();
        let ghost map = entries_map(schema.simple@);
        let mut k: usize = 0;
        while k < ks.len()
            invariant
                doc.wf(),
                root < nodes.len(),
                root == doc.root,
                is_xs_node(nodes, root as int, "schema"@),
                nodes == doc.nodes@,
                map == entries_map(schema.simple@),
                opt_view(schema.target_namespace) == attr(nodes, root as int, "targetNamespace"@),
                simple_upto(nodes, ks@) == Ok::<Map<Seq<char>, Seq<char>>, Seq<char>>(map),
                ks@ == kids(nodes, root as int),
                forall|q: int| 0 <= q < ks@.len() ==> root < #[trigger] ks@[q] < nodes.len(),
                k <= ks@.len(),
                decls_upto(nodes, map, ks@.take(k as int)) == Ok::<(Map<Seq<char>, ElementDecl>, Map<Seq<char>, ComplexTypeDecl>), Seq<char>>(
                    (entries_map(elements@), entries_map(types@)),
                ),
            decreases ks@.len() - k,
        {
            let c = ks[k];
            assert(ks@.take(k + 1).drop_last() =~= ks@.take(k as int));
            let name = doc.nodes[c].name.as_str();
            if same_text(name, "element") {
                match schema.element(doc, c) {
                    Err(e) => {
                        proof {
                            assert(ks@.take(k + 1).last() == c);
                            assert(decls_upto(nodes, map, ks@.take(k + 1)) == Err::<(Map<Seq<char>, ElementDecl>, Map<Seq<char>, ComplexTypeDecl>), Seq<char>>(e.message@));
                            lemma_decls_settled(nodes, map, ks@, k + 1);
                            assert(ks@.take(ks@.len() as int) =~= ks@);
                        }
                        return Err(e);
                    },
                    Ok(x) => {
                        let key = x.name.clone();
                        proof {
                            lemma_entries_push(elements@, (key, x));
                        }
                        elements.push((key, x));
                    },
                }
            } else if same_text(name, "complexType") {
                let type_key = match required(doc, c, "name") {
                    Err(e) => {
                        proof {
                            assert(ks@.take(k + 1).last() == c);
                            assert(decls_upto(nodes, map, ks@.take(k + 1)) == Err::<(Map<Seq<char>, ElementDecl>, Map<Seq<char>, ComplexTypeDecl>), Seq<char>>(e.message@));
                            lemma_decls_settled(nodes, map, ks@, k + 1);
                            assert(ks@.take(ks@.len() as int) =~= ks@);
                        }
                        return Err(e);
                    },
                    Ok(n) => n,
                };
                match schema.complex(doc, c) {
                    Err(e) => {
                        proof {
                            assert(ks@.take(k + 1).last() == c);
                            assert(decls_upto(nodes, map, ks@.take(k + 1)) == Err::<(Map<Seq<char>, ElementDecl>, Map<Seq<char>, ComplexTypeDecl>), Seq<char>>(e.message@));
                            lemma_decls_settled(nodes, map, ks@, k + 1);
                            assert(ks@.take(ks@.len() as int) =~= ks@);
                        }
                        return Err(e);
                    },
                    Ok(ct) => {
                        proof {
                            lemma_entries_push(types@, (type_key, ct));
                        }
                        types.push((type_key, ct));
                    },
                }
            } else if same_text(name, "simpleType") || same_text(name, "annotation") {
            } else {
                let mut reason = "xs:".to_owned();
                reason.append(name);
                reason.append(" is not supported");
                proof {
                    lemma_decls_settled(nodes, map, ks@, k + 1);
                    assert(ks@.take(ks@.len() as int) =~= ks@);
                }
                return Err(refuse(reason.as_str()));
            }
            k = k + 1;
        }
        assert(ks@.take(k as int) =~= ks@);
        proof {
            use_type_invariant(&schema);
        }
        Ok(Schema { target_namespace: schema.target_namespace, elements, types, simple: schema.simple })
    }

    /// Read a schema document.
    ///
    /// # Errors
    /// Not well-formed, not rooted at `xs:schema`, or outside the subset.
    pub fn parse(text: &str) -> (r: Result<Schema, ContractError>)
        ensures
            match r {
                Ok(s) => schema_of_text(text@) == Ok::<SchemaDecl, Seq<char>>(s@),
                Err(e) => schema_of_text(text@) == Err::<SchemaDecl, Seq<char>>(e.message@),
            },
    {
        match parse_document(text) {
            Err(e) => Err(refuse(e.message.as_str())),
            Ok(doc) => Schema::from_document(&doc),
        }
    }

    /// The schema's target namespace, if it names one.
    pub fn target_namespace(&self) -> (r: Option<&str>)
        ensures
            opt_str_view(r) == self@.target_namespace,
    {
        match &self.target_namespace {
            Some(t) => Some(t.as_str()),
            None => None,
        }
    }

    /// The top-level element declared by the local name `name`.
    pub fn declared_element(&self, name: &str) -> (r: Option<&Element>)
        ensures
            match r {
                Some(x) => self@.elements.contains_key(name@) && self@.elements[name@] == x@,
                None => !self@.elements.contains_key(name@),
            },
    {
        find_entry(&self.elements, name)
    }

    /// The complex type declared by the local name `name`.
    pub fn declared_type(&self, name: &str) -> (r: Option<&ComplexType>)
        ensures
            match r {
                Some(x) => self@.types.contains_key(name@) && self@.types[name@] == x@,
                None => !self@.types.contains_key(name@),
            },
    {
        find_entry(&self.types, name)
    }
}

// ---------------------------------------------------------------------------
// A refused schema is refused by name

/// `m` is the message of a refused schema.
pub open spec fn is_refusal(m: Seq<char>) -> bool {
    exists|reason: Seq<char>| m == #[trigger] refusal(reason)
}

proof fn lemma_required_refusal(nodes: Seq<XmlNode>, i: int, name: Seq<char>)
    ensures
        required_attr(nodes, i, name) matches Err(m) ==> is_refusal(m),
{
    if attr(nodes, i, name) is None {
        let reason = "xs:"@ + nodes[i].name@ + " without "@ + name;
        assert(required_attr(nodes, i, name) == Err::<Seq<char>, Seq<char>>(refusal(reason)));
    }
}

proof fn lemma_particles_refusal(nodes: Seq<XmlNode>, simple: Map<Seq<char>, Seq<char>>, i: int, k: int)
    requires
        0 <= i < nodes.len(),
    ensures
        particles_upto(nodes, simple, i, k) matches Err(m) ==> is_refusal(m),
    decreases nodes.len() - i, k,
{
    if 0 < k <= kids(nodes, i).len() {
        lemma_particles_refusal(nodes, simple, i, k - 1);
        lemma_kids(nodes, i);
        let c = kids(nodes, i)[k - 1] as int;
        let name = nodes[c].name@;
        if name == "element"@ {
            lemma_element_refusal(nodes, simple, c);
        } else if name != "annotation"@ {
            let reason = "xs:"@ + name + " inside a compositor is not supported"@;
            assert(refusal(reason) == refusal(reason));
        }
    }
}

proof fn lemma_complex_upto_refusal(nodes: Seq<XmlNode>, simple: Map<Seq<char>, Seq<char>>, i: int, k: int)
    requires
        0 <= i < nodes.len(),
    ensures
        complex_upto(nodes, simple, i, k) matches Err(m) ==> is_refusal(m),
    decreases nodes.len() - i, k,
{
    if 0 < k <= kids(nodes, i).len() {
        lemma_complex_upto_refusal(nodes, simple, i, k - 1);
        lemma_kids(nodes, i);
        let c = kids(nodes, i)[k - 1] as int;
        let name = nodes[c].name@;
        if name == "sequence"@ || name == "all"@ || name == "choice"@ {
            lemma_particles_refusal(nodes, simple, c, kids(nodes, c).len() as int);
        } else if name == "simpleContent"@ {
            assert(refusal("xs:simpleContent without extension"@) == refusal("xs:simpleContent without extension"@));
        } else if name != "attribute"@ && name != "annotation"@ {
            let reason = "xs:"@ + name + " is not supported"@;
            assert(refusal(reason) == refusal(reason));
        }
    }
}

proof fn lemma_element_refusal(nodes: Seq<XmlNode>, simple: Map<Seq<char>, Seq<char>>, i: int)
    requires
        0 <= i < nodes.len(),
    ensures
        element_from(nodes, simple, i) matches Err(m) ==> is_refusal(m),
    decreases nodes.len() - i, 0int,
{
    assert(refusal("xs:element ref is not supported"@) == refusal("xs:element ref is not supported"@));
    assert(unreadable_bound("minOccurs"@) == refusal("xs:element with an unreadable "@ + "minOccurs"@));
    assert(unreadable_bound("maxOccurs"@) == refusal("xs:element with an unreadable "@ + "maxOccurs"@));
    lemma_required_refusal(nodes, i, "name"@);
    if attr(nodes, i, "type"@) is None {
        lemma_kids(nodes, i);
        lemma_first_xs(nodes, kids(nodes, i), "complexType"@);
        if let Some(c) = first_xs(nodes, kids(nodes, i), "complexType"@) {
            lemma_complex_upto_refusal(nodes, simple, c as int, kids(nodes, c as int).len() as int);
        }
    }
}

proof fn lemma_simple_refusal(nodes: Seq<XmlNode>, ids: Seq<usize>)
    ensures
        simple_upto(nodes, ids) matches Err(m) ==> is_refusal(m),
    decreases ids.len(),
{
    if ids.len() > 0 {
        lemma_simple_refusal(nodes, ids.drop_last());
        lemma_required_refusal(nodes, ids.last() as int, "name"@);
    }
}

proof fn lemma_decls_refusal(nodes: Seq<XmlNode>, simple: Map<Seq<char>, Seq<char>>, ids: Seq<usize>)
    requires
        forall|k: int| 0 <= k < ids.len() ==> #[trigger] ids[k] < nodes.len(),
    ensures
        decls_upto(nodes, simple, ids) matches Err(m) ==> is_refusal(m),
    decreases ids.len(),
{
    if ids.len() > 0 {
        lemma_decls_refusal(nodes, simple, ids.drop_last());
        let c = ids.last() as int;
        let name = nodes[c].name@;
        if name == "element"@ {
            lemma_element_refusal(nodes, simple, c);
        } else if name == "complexType"@ {
            lemma_required_refusal(nodes, c, "name"@);
            lemma_complex_upto_refusal(nodes, simple, c, kids(nodes, c).len() as int);
        } else if name != "simpleType"@ && name != "annotation"@ {
            let reason = "xs:"@ + name + " is not supported"@;
            assert(refusal(reason) == refusal(reason));
        }
    }
}

/// A schema that cannot be bound is refused, and its message says so:
/// `schema refused: ` and the reason, whatever the text was.
pub proof fn law_refusals_say_so(text: Seq<char>)
    ensures
        schema_of_text(text) matches Err(m) ==> is_refusal(m),
{
    match roxmltree_parse(text) {
        Err((message, row, col)) => {
            assert(refusal(message@) == refusal(message@));
        },
        Ok(nodes) => {
            if nodes_ordered(nodes) && root_element(nodes) is Some {
                let root = root_element(nodes).unwrap() as int;
                lemma_root(nodes);
                assert(refusal("the document root is not xs:schema"@) == refusal("the document root is not xs:schema"@));
                lemma_kids(nodes, root);
                lemma_simple_refusal(nodes, kids(nodes, root));
                if let Ok(simple) = simple_upto(nodes, kids(nodes, root)) {
                    lemma_decls_refusal(nodes, simple, kids(nodes, root));
                }
            } else {
                assert(refusal(crate::xml::no_root_message()) == refusal(crate::xml::no_root_message()));
            }
        },
    }
}


/// Whether the `r`th element child of node `q`, a compositor, is other than
/// an element declaration: another compositor, a `group`, anything.
pub open spec fn foreign_particle(nodes: Seq<XmlNode>, q: int, r: int) -> bool {
    let name = nodes[kids(nodes, q)[r] as int].name@;
    0 <= r < kids(nodes, q).len() && name != "element"@ && name != "annotation"@
}

/// Whether the `q`th element child of node `c`, a complex type, is what the
/// subset leaves out: `complexContent`, `group` or any other foreign child,
/// or a compositor that holds a foreign particle.
pub open spec fn foreign_content(nodes: Seq<XmlNode>, c: int, q: int) -> bool {
    let kid = kids(nodes, c)[q] as int;
    let name = nodes[kid].name@;
    &&& 0 <= q < kids(nodes, c).len()
    &&& {
        ||| name != "sequence"@ && name != "all"@ && name != "choice"@ && name != "simpleContent"@
            && name != "attribute"@ && name != "annotation"@
        ||| (name == "sequence"@ || name == "all"@ || name == "choice"@) && exists|r: int|
            #[trigger] foreign_particle(nodes, kid, r)
    }
}

/// Whether the top-level node `c` of a schema lies outside the subset: an
/// `import`, an `include`, a `group` or any other foreign declaration, an
/// element declared by `ref` or with an occurrence bound that cannot be
/// read, or a named complex type with foreign content.
pub open spec fn top_level_outside_subset(nodes: Seq<XmlNode>, c: int) -> bool {
    let name = nodes[c].name@;
    ||| name != "element"@ && name != "complexType"@ && name != "simpleType"@ && name
        != "annotation"@
    ||| name == "element"@ && attr(nodes, c, "ref"@) is Some
    ||| name == "element"@ && (min_occurs(nodes, c) is Err || occurs_attr(nodes, c, "maxOccurs"@) is Err)
    ||| name == "complexType"@ && exists|q: int| #[trigger] foreign_content(nodes, c, q)
}

proof fn lemma_particles_refused(nodes: Seq<XmlNode>, simple: Map<Seq<char>, Seq<char>>, q: int, r: int, k: int)
    requires
        0 <= q < nodes.len(),
        r < k <= kids(nodes, q).len(),
        foreign_particle(nodes, q, r),
    ensures
        particles_upto(nodes, simple, q, k) is Err,
    decreases k,
{
    if r < k - 1 {
        lemma_particles_refused(nodes, simple, q, r, k - 1);
    }
}

proof fn lemma_complex_refused(nodes: Seq<XmlNode>, simple: Map<Seq<char>, Seq<char>>, c: int, q: int, k: int)
    requires
        0 <= c < nodes.len(),
        q < k <= kids(nodes, c).len(),
        foreign_content(nodes, c, q),
    ensures
        complex_upto(nodes, simple, c, k) is Err,
    decreases k,
{
    lemma_kids(nodes, c);
    if q < k - 1 {
        lemma_complex_refused(nodes, simple, c, q, k - 1);
    } else {
        let kid = kids(nodes, c)[q] as int;
        let name = nodes[kid].name@;
        if name == "sequence"@ || name == "all"@ || name == "choice"@ {
            let r = choose|r: int| #[trigger] foreign_particle(nodes, kid, r);
            lemma_particles_refused(nodes, simple, kid, r, kids(nodes, kid).len() as int);
        }
    }
}

#[verifier::spinoff_prover]
proof fn lemma_top_level_refused(nodes: Seq<XmlNode>, simple: Map<Seq<char>, Seq<char>>, c: int)
    requires
        0 <= c < nodes.len(),
        top_level_outside_subset(nodes, c),
    ensures
        nodes[c].name@ == "element"@ ==> element_from(nodes, simple, c) is Err,
        nodes[c].name@ == "complexType"@ ==> complex_from(nodes, simple, c) is Err,
        nodes[c].name@ != "element"@ && nodes[c].name@ != "complexType"@ ==> nodes[c].name@
            != "simpleType"@ && nodes[c].name@ != "annotation"@,
{
    let name = nodes[c].name@;
    assert("complexType"@ != "element"@) by {
        reveal_strlit("element");
        reveal_strlit("complexType");
        assert("complexType"@[0] != "element"@[0]);
    }
    if name == "complexType"@ {
        assert(exists|q: int| #[trigger] foreign_content(nodes, c, q));
        let q = choose|q: int| #[trigger] foreign_content(nodes, c, q);
        lemma_complex_refused(nodes, simple, c, q, kids(nodes, c).len() as int);
    }
}

proof fn lemma_decls_refused(nodes: Seq<XmlNode>, simple: Map<Seq<char>, Seq<char>>, ids: Seq<usize>, k: int)
    requires
        0 <= k < ids.len(),
        forall|m: int| 0 <= m < ids.len() ==> #[trigger] ids[m] < nodes.len(),
        top_level_outside_subset(nodes, ids[k] as int),
    ensures
        decls_upto(nodes, simple, ids) is Err,
    decreases ids.len(),
{
    let rest = ids.drop_last();
    if k < ids.len() - 1 {
        assert(rest[k] == ids[k]);
        lemma_decls_refused(nodes, simple, rest, k);
    } else {
        let c = ids[k] as int;
        assert(c < nodes.len());
        lemma_top_level_refused(nodes, simple, c);
    }
}

/// Nothing outside the subset is silently accepted: a schema with a
/// top-level `import`, `include`, `group` or other foreign declaration, an
/// element declared by `ref` or with an unreadable `minOccurs` or
/// `maxOccurs`, or a named complex type that uses
/// `complexContent`, nests a compositor or holds anything else foreign, is
/// refused.
pub proof fn law_outside_subset_is_refused(nodes: Seq<XmlNode>, root: int, k: int)
    requires
        0 <= root < nodes.len(),
        0 <= k < kids(nodes, root).len(),
        top_level_outside_subset(nodes, kids(nodes, root)[k] as int),
    ensures
        schema_of(nodes, root) is Err,
{
    lemma_kids(nodes, root);
    if is_xs_node(nodes, root, "schema"@) {
        if let Ok(simple) = simple_upto(nodes, kids(nodes, root)) {
            lemma_decls_refused(nodes, simple, kids(nodes, root), k);
        }
    }
}


/// The simple types of a bound schema stand for built-ins by their local
/// names: no base that a simple type names keeps its prefix.
pub proof fn law_simple_types_stand_for_local_names(text: Seq<char>)
    ensures
        schema_of_text(text) matches Ok(d) ==> plain_bases(d.simple),
{
    if let Ok(nodes) = roxmltree_parse(text) {
        if nodes_ordered(nodes) && root_element(nodes) is Some {
            lemma_simple_bases_plain(nodes, kids(nodes, root_element(nodes).unwrap() as int));
        }
    }
}


/// Each attribute declaration read from `ids` comes from one of them, an
/// `xs:attribute` of that name, and is required exactly when that one's
/// `use` is `required`: `optional`, or no `use` at all, leaves it optional.
pub proof fn law_attribute_required_by_use(nodes: Seq<XmlNode>, simple: Map<Seq<char>, Seq<char>>, ids: Seq<usize>)
    ensures
        forall|k: int|
            0 <= k < attribute_decls(nodes, simple, ids).len() ==> exists|m: int|
                0 <= m < ids.len() && #[trigger] is_xs_node(nodes, ids[m] as int, "attribute"@) && attr(
                    nodes,
                    ids[m] as int,
                    "name"@,
                ) == Some((#[trigger] attribute_decls(nodes, simple, ids)[k]).name) && (attribute_decls(
                    nodes,
                    simple,
                    ids,
                )[k].required <==> attr(nodes, ids[m] as int, "use"@) == Some("required"@)),
    decreases ids.len(),
{
    if ids.len() > 0 {
        let rest = ids.drop_last();
        law_attribute_required_by_use(nodes, simple, rest);
        let decls = attribute_decls(nodes, simple, ids);
        let before = attribute_decls(nodes, simple, rest);
        assert forall|k: int| 0 <= k < decls.len() implies exists|m: int|
            0 <= m < ids.len() && #[trigger] is_xs_node(nodes, ids[m] as int, "attribute"@) && attr(
                nodes,
                ids[m] as int,
                "name"@,
            ) == Some((#[trigger] decls[k]).name) && (decls[k].required <==> attr(nodes, ids[m] as int, "use"@)
                == Some("required"@)) by {
            if k < before.len() {
                assert(decls[k] == before[k]);
                let m = choose|m: int|
                    0 <= m < rest.len() && #[trigger] is_xs_node(nodes, rest[m] as int, "attribute"@) && attr(
                        nodes,
                        rest[m] as int,
                        "name"@,
                    ) == Some((#[trigger] before[k]).name) && (before[k].required <==> attr(
                        nodes,
                        rest[m] as int,
                        "use"@,
                    ) == Some("required"@));
                assert(rest[m] == ids[m]);
            } else {
                let m = ids.len() - 1;
                assert(ids[m] == ids.last());
                assert(is_xs_node(nodes, ids[m] as int, "attribute"@));
            }
        }
    }
}


/// A type name is resolved by its local name alone, prefix aside; and where
/// an element's type resolves to a built-in or a named type, that is the
/// very name an attribute's type of the same text resolves to.
pub proof fn law_type_names_resolve_by_local_name(simple: Map<Seq<char>, Seq<char>>, tname: Seq<char>)
    ensures
        kind_named(simple, tname) == kind_named(simple, local_part(tname)),
        builtin_named(simple, tname) == builtin_named(simple, local_part(tname)),
        kind_named(simple, tname) matches KindDecl::Builtin(b) ==> b == builtin_named(simple, tname),
        kind_named(simple, tname) matches KindDecl::Named(n) ==> n == builtin_named(simple, tname) && n == local_part(
            tname,
        ) && !is_builtin_name(n),
{
    lemma_local_part_idempotent(tname);
}


/// An element declaration that is read keeps what its attributes say: its
/// `name`; `minOccurs` as the numeral it is, 1 where absent; `maxOccurs` as
/// the numeral it is, unbounded for `unbounded`, 1 where absent.
pub proof fn law_element_keeps_its_bounds(nodes: Seq<XmlNode>, simple: Map<Seq<char>, Seq<char>>, i: int)
    ensures
        element_from(nodes, simple, i) matches Ok(d) ==> {
            &&& attr(nodes, i, "name"@) == Some(d.name)
            &&& attr(nodes, i, "ref"@) is None
            &&& match attr(nodes, i, "minOccurs"@) {
                None => d.min == 1,
                Some(t) => unsigned_at_most(t, u32::MAX as int) == Some(d.min as int),
            }
            &&& match attr(nodes, i, "maxOccurs"@) {
                None => d.max == Some(1u32),
                Some(t) => if t == "unbounded"@ {
                    d.max is None
                } else {
                    d.max matches Some(m) && unsigned_at_most(t, u32::MAX as int) == Some(m as int)
                },
            }
        },
{
}

} // verus!
