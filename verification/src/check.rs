//! Holding a document to a bound [`Schema`].
//!
//! An issue's `code` names what failed — `root`, `type`, `attribute`,
//! `content`, `occurs`, `value` — and its `path` is where, XPath-style:
//! `/order/line[2]/qty`, `/order/@currency`.

use crate::contract::{issues_view, Issue, ValidationIssue};
use crate::schema::{
    AttributeDecl, ComplexType, ComplexTypeDecl, Content, ContentDecl, Element, ElementDecl, Kind,
    KindDecl, Schema, SchemaDecl, element_decls, lemma_element_decls,
};
use crate::text::{
    chars_of, date_in, date_time_in, decimal, decimal_text, debug_quoted, float_text,
    is_date_text, is_date_time_text, is_float_text, is_time_text, lemma_trimmed_idempotent, parse_signed, parse_unsigned,
    quote, same_ignoring_ascii_case, same_ignoring_case, same_text, signed_value, time_in, trim,
    trimmed, unsigned_at_most,
};
use crate::xml::{attribute_value, kids, lemma_kids, text_of, XmlAttribute, XmlDocument, XmlNode};
use vstd::prelude::*;

verus! {

pub open spec fn issue(code: Seq<char>, message: Seq<char>, path: Seq<char>) -> Issue {
    Issue { code, message, path: Some(path) }
}

/// `path/name`, with the element's ordinal where the schema lets it repeat:
/// `line[2]`, but `qty`, so a path reads the way the operator wrote the
/// schema.
pub open spec fn child_path_text(path: Seq<char>, particle: ElementDecl, ordinal: nat) -> Seq<char> {
    if particle.max == Some(1u32) {
        path + "/"@ + particle.name
    } else {
        path + "/"@ + particle.name + "["@ + decimal(ordinal) + "]"@
    }
}

/// Whether `text` (already trimmed) is a lexical form of the built-in
/// `builtin`. A type this contract does not check is not a type it refuses.
pub open spec fn value_holds(builtin: Seq<char>, t: Seq<char>) -> bool {
    if builtin == "boolean"@ {
        t == "true"@ || t == "false"@ || t == "1"@ || t == "0"@
    } else if builtin == "integer"@ || builtin == "int"@ || builtin == "long"@ || builtin
        == "short"@ || builtin == "byte"@ {
        signed_value(t) is Some
    } else if builtin == "unsignedLong"@ || builtin == "unsignedInt"@ || builtin
        == "unsignedShort"@ || builtin == "unsignedByte"@ || builtin == "nonNegativeInteger"@ {
        unsigned_at_most(t, u64::MAX as int) is Some
    } else if builtin == "positiveInteger"@ {
        unsigned_at_most(t, u64::MAX as int) matches Some(n) && n > 0
    } else if builtin == "negativeInteger"@ {
        signed_value(t) matches Some(n) && n < 0
    } else if builtin == "nonPositiveInteger"@ {
        signed_value(t) matches Some(n) && n <= 0
    } else if builtin == "decimal"@ {
        is_float_text(t) && !same_ignoring_ascii_case(t, "nan"@)
    } else if builtin == "double"@ || builtin == "float"@ {
        is_float_text(t) || t == "INF"@ || t == "-INF"@ || t == "NaN"@
    } else if builtin == "date"@ {
        is_date_text(t)
    } else if builtin == "dateTime"@ {
        is_date_time_text(t)
    } else if builtin == "time"@ {
        is_time_text(t)
    } else {
        true
    }
}

/// The issue of a value that is not a lexical form of its built-in.
pub open spec fn value_issues(builtin: Seq<char>, text: Seq<char>, path: Seq<char>) -> Seq<Issue> {
    let t = trimmed(text);
    if value_holds(builtin, t) {
        Seq::empty()
    } else {
        seq![issue("value"@, debug_quoted(t) + " is not an xs:"@ + builtin, path)]
    }
}

/// One issue for each of the elements `ids`, where no child is allowed.
pub open spec fn reject_issues(nodes: Seq<XmlNode>, ids: Seq<usize>, path: Seq<char>) -> Seq<Issue>
    decreases ids.len(),
{
    if ids.len() == 0 {
        Seq::empty()
    } else {
        reject_issues(nodes, ids.drop_last(), path).push(
            issue(
                "content"@,
                "no child element is allowed here"@,
                path + "/"@ + nodes[ids.last() as int].name@,
            ),
        )
    }
}

/// The issues of the declared attributes: a value that its built-in refuses,
/// or a required attribute that is missing.
pub open spec fn declared_attribute_issues(nodes: Seq<XmlNode>, i: int, declared: Seq<AttributeDecl>, path: Seq<char>) -> Seq<Issue>
    decreases declared.len(),
{
    if declared.len() == 0 {
        Seq::empty()
    } else {
        let a = declared.last();
        let at = path + "/@"@ + a.name;
        declared_attribute_issues(nodes, i, declared.drop_last(), path) + match attribute_value(
            nodes[i].attributes@,
            a.name,
        ) {
            Some(text) => value_issues(a.builtin, text, at),
            None => if a.required {
                seq![issue("attribute"@, "required attribute is missing"@, at)]
            } else {
                Seq::empty()
            },
        }
    }
}

pub open spec fn declares(declared: Seq<AttributeDecl>, name: Seq<char>) -> bool {
    exists|k: int| 0 <= k < declared.len() && #[trigger] declared[k].name == name
}

/// The issues of attributes present but not declared. Namespace
/// declarations and `xsi:*` are wiring, not content.
pub open spec fn undeclared_attribute_issues(present: Seq<XmlAttribute>, declared: Seq<AttributeDecl>, path: Seq<char>) -> Seq<Issue>
    decreases present.len(),
{
    if present.len() == 0 {
        Seq::empty()
    } else {
        let a = present.last();
        let rest = undeclared_attribute_issues(present.drop_last(), declared, path);
        if a.1 is None && !declares(declared, a.0@) {
            rest.push(issue("attribute"@, "attribute is not declared"@, path + "/@"@ + a.0@))
        } else {
            rest
        }
    }
}

pub open spec fn attribute_issues(nodes: Seq<XmlNode>, i: int, ct: ComplexTypeDecl, path: Seq<char>) -> Seq<Issue> {
    declared_attribute_issues(nodes, i, ct.attributes, path) + undeclared_attribute_issues(
        nodes[i].attributes@,
        ct.attributes,
        path,
    )
}

/// The issues of an element that occurs `count` times.
pub open spec fn occurs_issues(particle: ElementDecl, count: nat, path: Seq<char>) -> Seq<Issue> {
    let at = path + "/"@ + particle.name;
    (if count < particle.min {
        seq![
            issue(
                "occurs"@,
                "occurs "@ + decimal(count) + " times, at least "@ + decimal(particle.min as nat)
                    + " required"@,
                at,
            ),
        ]
    } else {
        Seq::empty()
    }) + match particle.max {
        Some(max) => if count > max {
            seq![
                issue(
                    "occurs"@,
                    "occurs "@ + decimal(count) + " times, at most "@ + decimal(max as nat)
                        + " allowed"@,
                    at,
                ),
            ]
        } else {
            Seq::empty()
        },
        None => Seq::empty(),
    }
}

pub open spec fn names_particle(particles: Seq<ElementDecl>, name: Seq<char>) -> bool {
    exists|k: int| 0 <= k < particles.len() && #[trigger] particles[k].name == name
}

/// One issue for each of the elements `ids` that no particle names.
pub open spec fn unexpected_issues(particles: Seq<ElementDecl>, nodes: Seq<XmlNode>, ids: Seq<usize>, path: Seq<char>) -> Seq<Issue>
    decreases ids.len(),
{
    if ids.len() == 0 {
        Seq::empty()
    } else {
        let name = nodes[ids.last() as int].name@;
        let rest = unexpected_issues(particles, nodes, ids.drop_last(), path);
        if !names_particle(particles, name) {
            rest.push(issue("content"@, "element is not expected here"@, path + "/"@ + name))
        } else {
            rest
        }
    }
}

/// How many of `ids` are named `name`.
pub open spec fn count_named(nodes: Seq<XmlNode>, ids: Seq<usize>, name: Seq<char>) -> nat
    decreases ids.len(),
{
    if ids.len() == 0 {
        0
    } else {
        count_named(nodes, ids.drop_last(), name) + if nodes[ids.last() as int].name@ == name {
            1nat
        } else {
            0nat
        }
    }
}

/// How many of `ids`, from position `from` on, are named `name` before the
/// first that is not.
pub open spec fn run_count(nodes: Seq<XmlNode>, ids: Seq<usize>, from: int, name: Seq<char>) -> nat
    decreases ids.len() - from,
{
    if from < 0 || from >= ids.len() || nodes[ids[from] as int].name@ != name {
        0
    } else {
        1 + run_count(nodes, ids, from + 1, name)
    }
}

/// How many elements a sequence gives `particle` from position `next` on:
/// the run of its name, as far as `maxOccurs` allows.
pub open spec fn taken(nodes: Seq<XmlNode>, ids: Seq<usize>, next: int, particle: ElementDecl) -> nat {
    let run = run_count(nodes, ids, next, particle.name);
    match particle.max {
        Some(max) => if run <= max {
            run
        } else {
            max as nat
        },
        None => run,
    }
}

/// Whether any of `ids` is named `name`.
pub open spec fn present(nodes: Seq<XmlNode>, ids: Seq<usize>, name: Seq<char>) -> bool {
    exists|k: int| 0 <= k < ids.len() && #[trigger] nodes[ids[k] as int].name@ == name
}

/// The particles of a choice of which some element is present.
pub open spec fn chosen(particles: Seq<ElementDecl>, nodes: Seq<XmlNode>, ids: Seq<usize>) -> Seq<ElementDecl>
    decreases particles.len(),
{
    if particles.len() == 0 {
        Seq::empty()
    } else {
        let rest = chosen(particles.drop_last(), nodes, ids);
        if present(nodes, ids, particles.last().name) {
            rest.push(particles.last())
        } else {
            rest
        }
    }
}

/// The names of `particles`, joined by `, `.
pub open spec fn joined_names(particles: Seq<ElementDecl>) -> Seq<char>
    decreases particles.len(),
{
    if particles.len() == 0 {
        Seq::empty()
    } else if particles.len() == 1 {
        particles[0].name
    } else {
        joined_names(particles.drop_last()) + ", "@ + particles.last().name
    }
}

/// Every departure of node `i` from the declaration `d`.
pub open spec fn element_issues(s: SchemaDecl, d: ElementDecl, nodes: Seq<XmlNode>, i: int, path: Seq<char>) -> Seq<Issue>
    decreases nodes.len() - i, 6int, 0int,
{
    if i < 0 || i >= nodes.len() {
        Seq::empty()
    } else {
        match d.kind {
            KindDecl::Any => Seq::empty(),
            KindDecl::Builtin(b) => reject_issues(nodes, kids(nodes, i), path) + value_issues(
                b,
                text_of(nodes[i]),
                path,
            ),
            KindDecl::Named(n) => if s.types.contains_key(n) {
                complex_issues(s, s.types[n], nodes, i, path)
            } else {
                seq![issue("type"@, "type "@ + n + " is not declared"@, path)]
            },
            KindDecl::Inline(ct) => complex_issues(s, *ct, nodes, i, path),
        }
    }
}

/// Every departure of node `i` from the complex type `ct`.
pub open spec fn complex_issues(s: SchemaDecl, ct: ComplexTypeDecl, nodes: Seq<XmlNode>, i: int, path: Seq<char>) -> Seq<Issue>
    decreases nodes.len() - i, 5int, 0int,
{
    if i < 0 || i >= nodes.len() {
        Seq::empty()
    } else {
        attribute_issues(nodes, i, ct, path) + match ct.content {
            ContentDecl::Empty => reject_issues(nodes, kids(nodes, i), path),
            ContentDecl::Simple(b) => reject_issues(nodes, kids(nodes, i), path) + value_issues(
                b,
                text_of(nodes[i]),
                path,
            ),
            ContentDecl::Sequence(ps) => sequence_from(s, ps, nodes, i, path, 0, 0),
            ContentDecl::All(ps) => all_issues(s, ps, nodes, i, path),
            ContentDecl::Choice(ps) => choice_issues(s, ps, nodes, i, path),
        }
    }
}

/// A choice wants exactly one of its particles.
pub open spec fn choice_issues(s: SchemaDecl, ps: Seq<ElementDecl>, nodes: Seq<XmlNode>, i: int, path: Seq<char>) -> Seq<Issue>
    decreases nodes.len() - i, 4int, 0int,
{
    if i < 0 || i >= nodes.len() {
        Seq::empty()
    } else {
        let picked = chosen(ps, nodes, kids(nodes, i));
        (if picked.len() == 0 {
            seq![issue("occurs"@, "one of "@ + joined_names(ps) + " is required"@, path)]
        } else if picked.len() == 1 {
            all_issues(s, seq![picked[0]], nodes, i, path)
        } else {
            seq![issue("content"@, "only one of "@ + joined_names(picked) + " may appear"@, path)]
        }) + unexpected_issues(ps, nodes, kids(nodes, i), path)
    }
}

/// `all` admits its particles in any order and bounds each.
pub open spec fn all_issues(s: SchemaDecl, ps: Seq<ElementDecl>, nodes: Seq<XmlNode>, i: int, path: Seq<char>) -> Seq<Issue>
    decreases nodes.len() - i, 3int, 0int,
{
    if i < 0 || i >= nodes.len() {
        Seq::empty()
    } else {
        all_upto(s, ps, nodes, i, path, ps.len() as int) + unexpected_issues(
            ps,
            nodes,
            kids(nodes, i),
            path,
        )
    }
}

/// The issues of the first `n` particles of an `all`.
pub open spec fn all_upto(s: SchemaDecl, ps: Seq<ElementDecl>, nodes: Seq<XmlNode>, i: int, path: Seq<char>, n: int) -> Seq<Issue>
    decreases nodes.len() - i, 2int, n,
{
    if n <= 0 || n > ps.len() || i < 0 || i >= nodes.len() {
        Seq::empty()
    } else {
        let p = ps[n - 1];
        all_upto(s, ps, nodes, i, path, n - 1) + matches_upto(
            s,
            p,
            nodes,
            i,
            path,
            kids(nodes, i).len() as int,
        ) + occurs_issues(p, count_named(nodes, kids(nodes, i), p.name), path)
    }
}

/// The issues of the elements named by `p` among the first `m` element
/// children of node `i`, each at its ordinal.
pub open spec fn matches_upto(s: SchemaDecl, p: ElementDecl, nodes: Seq<XmlNode>, i: int, path: Seq<char>, m: int) -> Seq<Issue>
    decreases nodes.len() - i, 1int, m,
{
    if m <= 0 || m > kids(nodes, i).len() || i < 0 || i >= nodes.len() {
        Seq::empty()
    } else {
        let ks = kids(nodes, i);
        let c = ks[m - 1] as int;
        proof {
            lemma_kids(nodes, i);
        }
        matches_upto(s, p, nodes, i, path, m - 1) + if nodes[c].name@ == p.name {
            element_issues(s, p, nodes, c, child_path_text(path, p, count_named(nodes, ks.take(m), p.name)))
        } else {
            Seq::empty()
        }
    }
}

/// The issues of a sequence from particle `pi` on, its elements taken from
/// element child `next` on; the children left over are not expected.
pub open spec fn sequence_from(s: SchemaDecl, ps: Seq<ElementDecl>, nodes: Seq<XmlNode>, i: int, path: Seq<char>, pi: int, next: int) -> Seq<Issue>
    decreases nodes.len() - i, 2int, ps.len() - pi,
{
    if i < 0 || i >= nodes.len() || pi < 0 {
        Seq::empty()
    } else if pi >= ps.len() {
        let ks = kids(nodes, i);
        unexpected_issues(Seq::empty(), nodes, ks.skip(next), path)
    } else {
        let p = ps[pi];
        let n = taken(nodes, kids(nodes, i), next, p);
        run_issues(s, p, nodes, i, path, next, n as int) + occurs_issues(p, n, path)
            + sequence_from(s, ps, nodes, i, path, pi + 1, next + n)
    }
}

/// The issues of the `n` element children of node `i` from position `next`
/// on, held to `p`, the first at ordinal 1.
pub open spec fn run_issues(s: SchemaDecl, p: ElementDecl, nodes: Seq<XmlNode>, i: int, path: Seq<char>, next: int, n: int) -> Seq<Issue>
    decreases nodes.len() - i, 1int, n,
{
    if n <= 0 || next < 0 || next + n > kids(nodes, i).len() || i < 0 || i >= nodes.len() {
        Seq::empty()
    } else {
        let c = kids(nodes, i)[next + n - 1] as int;
        proof {
            lemma_kids(nodes, i);
        }
        run_issues(s, p, nodes, i, path, next, n - 1) + element_issues(
            s,
            p,
            nodes,
            c,
            child_path_text(path, p, n as nat),
        )
    }
}

/// Every departure of the document rooted at node `root` from the schema.
pub open spec fn check_issues(s: SchemaDecl, nodes: Seq<XmlNode>, root: int) -> Seq<Issue> {
    let name = nodes[root].name@;
    let path = "/"@ + name;
    if s.elements.contains_key(name) {
        element_issues(s, s.elements[name], nodes, root, path)
    } else {
        seq![issue("root"@, "element "@ + name + " is not declared"@, path)]
    }
}

// ---------------------------------------------------------------------------
// Checking, executably

proof fn lemma_assoc(a: Seq<Issue>, b: Seq<Issue>, c: Seq<Issue>)
    ensures
        (a + b) + c == a + (b + c),
{
    assert((a + b) + c =~= a + (b + c));
}

proof fn lemma_push_assoc(a: Seq<Issue>, b: Seq<Issue>, x: Issue)
    ensures
        (a + b).push(x) == a + b.push(x),
{
    assert((a + b).push(x) =~= a + b.push(x));
}

fn push_issue(out: &mut Vec<ValidationIssue>, code: &str, message: &str, path: &str)
    ensures
        issues_view(final(out)@) == issues_view(old(out)@).push(issue(code@, message@, path@)),
{
    let ghost before = out@;
    out.push(ValidationIssue::at(code, message, path));
    assert(issues_view(out@) =~= issues_view(before).push(issue(code@, message@, path@)));
}

fn joined(a: &str, b: &str, c: &str) -> (r: String)
    ensures
        r@ == a@ + b@ + c@,
{
    let mut r = a.to_owned();
    r.append(b);
    r.append(c);
    r
}

/// `path/name`, with the ordinal where the schema lets the element repeat.
pub fn child_path(path: &str, particle: &Element, ordinal: u64) -> (r: String)
    ensures
        r@ == child_path_text(path@, particle@, ordinal as nat),
{
    let mut r = joined(path, "/", particle.name.as_str());
    let single = match particle.max {
        Some(m) => m == 1,
        None => false,
    };
    if !single {
        r.append("[");
        r.append(decimal_text(ordinal).as_str());
        r.append("]");
    }
    r
}

/// `YYYY-MM-DD` at the start of `text`.
pub fn is_date(text: &str) -> (r: bool)
    ensures
        r == is_date_text(text@),
{
    let cs = chars_of(text);
    assert(cs@.subrange(0, cs@.len() as int) =~= cs@);
    date_in(cs.as_slice(), 0, cs.len())
}

/// `hh:mm:ss` at the start of `text`.
pub fn is_time(text: &str) -> (r: bool)
    ensures
        r == is_time_text(text@),
{
    let cs = chars_of(text);
    assert(cs@.subrange(0, cs@.len() as int) =~= cs@);
    time_in(cs.as_slice(), 0, cs.len())
}

/// Whether `t`, already trimmed, is a lexical form of the built-in `builtin`.
/// Unknown names hold: a type this contract does not check is not a type it
/// refuses.
pub fn holds(builtin: &str, t: &str) -> (r: bool)
    ensures
        r == value_holds(builtin@, t@),
{
    let cs = chars_of(t);
    let c = cs.as_slice();
    if same_text(builtin, "boolean") {
        same_text(t, "true") || same_text(t, "false") || same_text(t, "1") || same_text(t, "0")
    } else if same_text(builtin, "integer") || same_text(builtin, "int") || same_text(builtin, "long")
        || same_text(builtin, "short") || same_text(builtin, "byte") {
        parse_signed(c).is_some()
    } else if same_text(builtin, "unsignedLong") || same_text(builtin, "unsignedInt") || same_text(
        builtin,
        "unsignedShort",
    ) || same_text(builtin, "unsignedByte") || same_text(builtin, "nonNegativeInteger") {
        parse_unsigned(c, u64::MAX).is_some()
    } else if same_text(builtin, "positiveInteger") {
        match parse_unsigned(c, u64::MAX) {
            Some(n) => n > 0,
            None => false,
        }
    } else if same_text(builtin, "negativeInteger") {
        match parse_signed(c) {
            Some(n) => n < 0,
            None => false,
        }
    } else if same_text(builtin, "nonPositiveInteger") {
        match parse_signed(c) {
            Some(n) => n <= 0,
            None => false,
        }
    } else if same_text(builtin, "decimal") {
        float_text(c) && !same_ignoring_case(t, "nan")
    } else if same_text(builtin, "double") || same_text(builtin, "float") {
        float_text(c) || same_text(t, "INF") || same_text(t, "-INF") || same_text(t, "NaN")
    } else if same_text(builtin, "date") {
        is_date(t)
    } else if same_text(builtin, "dateTime") {
        date_time_in(c)
    } else if same_text(builtin, "time") {
        is_time(t)
    } else {
        true
    }
}

/// A built-in simple type's lexical check of `text`, trimmed; an issue at
/// `path` where it does not hold.
pub fn value(builtin: &str, text: &str, path: &str, out: &mut Vec<ValidationIssue>)
    ensures
        issues_view(final(out)@) == issues_view(old(out)@) + value_issues(builtin@, text@, path@),
{
    let t = trim(text);
    let held = holds(builtin, t);
    if !held {
        let mut message = quote(t);
        message.append(" is not an xs:");
        message.append(builtin);
        push_issue(out, "value", message.as_str(), path);
    } else {
        assert(issues_view(out@) + Seq::<Issue>::empty() =~= issues_view(out@));
    }
}

/// One issue for each element child of node `i`, where none is allowed.
fn reject_children(doc: &XmlDocument, i: usize, path: &str, out: &mut Vec<ValidationIssue>)
    requires
        i < doc.nodes@.len(),
    ensures
        issues_view(final(out)@) == issues_view(old(out)@) + reject_issues(
            doc.nodes@,
            kids(doc.nodes@, i as int),
            path@,
        ),
{
    let ghost nodes = doc.nodes@;
    let ks = doc.element_children(i);
    proof {
        lemma_kids(nodes, i as int);
    }
    let ghost start = issues_view(out@);
    let mut k: usize = 0;
    assert(ks@.take(0) =~= Seq::<usize>::empty());
    assert(start + Seq::<Issue>::empty() =~= start);
    while k < ks.len()
        invariant
            nodes == doc.nodes@,
            ks@ == kids(nodes, i as int),
            forall|q: int| 0 <= q < ks@.len() ==> #[trigger] ks@[q] < nodes.len(),
            k <= ks@.len(),
            issues_view(out@) == start + reject_issues(nodes, ks@.take(k as int), path@),
        decreases ks@.len() - k,
    {
        let c = ks[k];
        let at = joined(path, "/", doc.nodes[c].name.as_str());
        proof {
            assert(ks@.take(k + 1).drop_last() =~= ks@.take(k as int));
            lemma_push_assoc(
                start,
                reject_issues(nodes, ks@.take(k as int), path@),
                issue("content"@, "no child element is allowed here"@, at@),
            );
        }
        push_issue(out, "content", "no child element is allowed here", at.as_str());
        k = k + 1;
    }
    assert(ks@.take(k as int) =~= ks@);
}

/// Whether the complex type declares an attribute named `name`.
fn declares_attribute(ct: &ComplexType, name: &str) -> (r: bool)
    ensures
        r == declares(ct@.attributes, name@),
{
    let mut k: usize = 0;
    while k < ct.attributes.len()
        invariant
            k <= ct.attributes@.len(),
            ct@.attributes.len() == ct.attributes@.len(),
            forall|q: int| 0 <= q < k ==> #[trigger] ct@.attributes[q].name != name@,
        decreases ct.attributes@.len() - k,
    {
        assert(ct@.attributes[k as int] == ct.attributes@[k as int]@);
        if same_text(ct.attributes[k].name.as_str(), name) {
            assert(ct@.attributes[k as int].name == name@);
            return true;
        }
        k = k + 1;
    }
    false
}

/// The attribute issues of node `i` against the complex type `ct`.
fn attributes(ct: &ComplexType, doc: &XmlDocument, i: usize, path: &str, out: &mut Vec<ValidationIssue>)
    requires
        i < doc.nodes@.len(),
    ensures
        issues_view(final(out)@) == issues_view(old(out)@) + attribute_issues(
            doc.nodes@,
            i as int,
            ct@,
            path@,
        ),
{
    let ghost nodes = doc.nodes@;
    let ghost declared = ct@.attributes;
    let ghost start = issues_view(out@);
    let mut k: usize = 0;
    assert(declared.take(0) =~= Seq::<AttributeDecl>::empty());
    assert(start + Seq::<Issue>::empty() =~= start);
    while k < ct.attributes.len()
        invariant
            nodes == doc.nodes@,
            i < nodes.len(),
            declared == ct@.attributes,
            declared.len() == ct.attributes@.len(),
            k <= declared.len(),
            issues_view(out@) == start + declared_attribute_issues(nodes, i as int, declared.take(k as int), path@),
        decreases declared.len() - k,
    {
        let a = &ct.attributes[k];
        assert(declared[k as int] == a@);
        assert(declared.take(k + 1).drop_last() =~= declared.take(k as int));
        assert(declared.take(k + 1).last() == a@);
        let at = joined(path, "/@", a.name.as_str());
        let ghost before = issues_view(out@);
        match doc.attribute(i, a.name.as_str()) {
            Some(text) => {
                value(a.builtin.as_str(), text, at.as_str(), out);
            },
            None => {
                if a.required {
                    push_issue(out, "attribute", "required attribute is missing", at.as_str());
                    assert(issues_view(out@) =~= before + seq![issue("attribute"@, "required attribute is missing"@, at@)]);
                } else {
                    assert(issues_view(out@) =~= before + Seq::<Issue>::empty());
                }
            },
        }
        proof {
            lemma_assoc(
                start,
                declared_attribute_issues(nodes, i as int, declared.take(k as int), path@),
                issues_view(out@).subrange(before.len() as int, issues_view(out@).len() as int),
            );
            assert(issues_view(out@) =~= before + issues_view(out@).subrange(before.len() as int, issues_view(out@).len() as int));
        }
        k = k + 1;
    }
    assert(declared.take(k as int) =~= declared);
    let ghost mid = issues_view(out@);
    let present = &doc.nodes[i].attributes;
    let mut j: usize = 0;
    assert(present@.take(0) =~= Seq::<XmlAttribute>::empty());
    assert(mid + Seq::<Issue>::empty() =~= mid);
    while j < present.len()
        invariant
            nodes == doc.nodes@,
            i < nodes.len(),
            declared == ct@.attributes,
            present@ == nodes[i as int].attributes@,
            j <= present@.len(),
            issues_view(out@) == mid + undeclared_attribute_issues(present@.take(j as int), declared, path@),
        decreases present@.len() - j,
    {
        let a = &present[j];
        assert(present@.take(j + 1).drop_last() =~= present@.take(j as int));
        assert(present@.take(j + 1).last() == *a);
        if a.1.is_none() && !declares_attribute(ct, a.0.as_str()) {
            let at = joined(path, "/@", a.0.as_str());
            proof {
                lemma_push_assoc(
                    mid,
                    undeclared_attribute_issues(present@.take(j as int), declared, path@),
                    issue("attribute"@, "attribute is not declared"@, at@),
                );
            }
            push_issue(out, "attribute", "attribute is not declared", at.as_str());
        }
        j = j + 1;
    }
    assert(present@.take(j as int) =~= present@);
    proof {
        lemma_assoc(
            start,
            declared_attribute_issues(nodes, i as int, declared, path@),
            undeclared_attribute_issues(present@, declared, path@),
        );
    }
}

/// The occurrence issues of `particle` found `count` times.
fn occurs(particle: &Element, count: u64, path: &str, out: &mut Vec<ValidationIssue>)
    ensures
        issues_view(final(out)@) == issues_view(old(out)@) + occurs_issues(particle@, count as nat, path@),
{
    let ghost start = issues_view(out@);
    let at = joined(path, "/", particle.name.as_str());
    let ghost mid_part: Seq<Issue> = Seq::empty();
    if count < particle.min as u64 {
        let mut message = "occurs ".to_owned();
        message.append(decimal_text(count).as_str());
        message.append(" times, at least ");
        message.append(decimal_text(particle.min as u64).as_str());
        message.append(" required");
        push_issue(out, "occurs", message.as_str(), at.as_str());
    }
    let ghost mid = issues_view(out@);
    match particle.max {
        Some(max) => {
            if count > max as u64 {
                let mut message = "occurs ".to_owned();
                message.append(decimal_text(count).as_str());
                message.append(" times, at most ");
                message.append(decimal_text(max as u64).as_str());
                message.append(" allowed");
                push_issue(out, "occurs", message.as_str(), at.as_str());
            }
        },
        None => {},
    }
    assert(issues_view(out@) =~= start + occurs_issues(particle@, count as nat, path@));
}

/// Whether some particle is named `name`.
fn names_any(particles: &[Element], name: &str) -> (r: bool)
    ensures
        r == names_particle(element_decls(particles@), name@),
{
    proof {
        lemma_element_decls(particles@);
    }
    let mut k: usize = 0;
    while k < particles.len()
        invariant
            k <= particles@.len(),
            element_decls(particles@).len() == particles@.len(),
            forall|q: int| 0 <= q < particles@.len() ==> #[trigger] element_decls(particles@)[q] == particles@[q]@,
            forall|q: int| 0 <= q < k ==> #[trigger] element_decls(particles@)[q].name != name@,
        decreases particles@.len() - k,
    {
        assert(element_decls(particles@)[k as int] == particles@[k as int]@);
        if same_text(particles[k].name.as_str(), name) {
            assert(element_decls(particles@)[k as int].name == name@);
            return true;
        }
        k = k + 1;
    }
    false
}

/// One issue for each of `ids[from..]` that no particle names.
fn unexpected(particles: &[Element], doc: &XmlDocument, ids: &Vec<usize>, from: usize, path: &str, out: &mut Vec<ValidationIssue>)
    requires
        from <= ids@.len(),
        forall|q: int| 0 <= q < ids@.len() ==> #[trigger] ids@[q] < doc.nodes@.len(),
    ensures
        issues_view(final(out)@) == issues_view(old(out)@) + unexpected_issues(
            element_decls(particles@),
            doc.nodes@,
            ids@.skip(from as int),
            path@,
        ),
{
    let ghost nodes = doc.nodes@;
    let ghost ps = element_decls(particles@);
    let ghost rest = ids@.skip(from as int);
    let ghost start = issues_view(out@);
    let mut k: usize = from;
    assert(rest.take(0) =~= Seq::<usize>::empty());
    assert(start + Seq::<Issue>::empty() =~= start);
    while k < ids.len()
        invariant
            nodes == doc.nodes@,
            ps == element_decls(particles@),
            rest == ids@.skip(from as int),
            forall|q: int| 0 <= q < ids@.len() ==> #[trigger] ids@[q] < nodes.len(),
            from <= k <= ids@.len(),
            issues_view(out@) == start + unexpected_issues(ps, nodes, rest.take(k - from), path@),
        decreases ids@.len() - k,
    {
        let c = ids[k];
        assert(rest.take(k - from + 1).drop_last() =~= rest.take(k - from));
        assert(rest.take(k - from + 1).last() == c);
        let name = doc.nodes[c].name.as_str();
        if !names_any(particles, name) {
            let at = joined(path, "/", name);
            proof {
                lemma_push_assoc(
                    start,
                    unexpected_issues(ps, nodes, rest.take(k - from), path@),
                    issue("content"@, "element is not expected here"@, at@),
                );
            }
            push_issue(out, "content", "element is not expected here", at.as_str());
        }
        k = k + 1;
    }
    assert(rest.take(k - from) =~= rest);
}

/// Whether any of `ids` is named `name`.
fn present_among(doc: &XmlDocument, ids: &Vec<usize>, name: &str) -> (r: bool)
    requires
        forall|q: int| 0 <= q < ids@.len() ==> #[trigger] ids@[q] < doc.nodes@.len(),
    ensures
        r == present(doc.nodes@, ids@, name@),
{
    let mut k: usize = 0;
    while k < ids.len()
        invariant
            k <= ids@.len(),
            forall|q: int| 0 <= q < ids@.len() ==> #[trigger] ids@[q] < doc.nodes@.len(),
            forall|q: int| 0 <= q < k ==> #[trigger] doc.nodes@[ids@[q] as int].name@ != name@,
        decreases ids@.len() - k,
    {
        if same_text(doc.nodes[ids[k]].name.as_str(), name) {
            assert(doc.nodes@[ids@[k as int] as int].name@ == name@);
            return true;
        }
        k = k + 1;
    }
    false
}

/// The names of the particles at positions `which`, joined by `, `.
fn names_joined(particles: &[Element], which: &Vec<usize>, Ghost(decls): Ghost<Seq<ElementDecl>>) -> (r: String)
    requires
        which@.len() == decls.len(),
        forall|q: int| 0 <= q < which@.len() ==> #[trigger] which@[q] < particles@.len(),
        forall|q: int| 0 <= q < which@.len() ==> particles@[#[trigger] which@[q] as int]@ == decls[q],
    ensures
        r@ == joined_names(decls),
{
    let mut r = String::new();
    let mut k: usize = 0;
    assert(decls.take(0) =~= Seq::<ElementDecl>::empty());
    while k < which.len()
        invariant
            k <= which@.len(),
            which@.len() == decls.len(),
            forall|q: int| 0 <= q < which@.len() ==> #[trigger] which@[q] < particles@.len(),
            forall|q: int| 0 <= q < which@.len() ==> particles@[#[trigger] which@[q] as int]@ == decls[q],
            r@ == joined_names(decls.take(k as int)),
        decreases which@.len() - k,
    {
        let p = &particles[which[k]];
        assert(p@ == decls[k as int]);
        assert(decls.take(k + 1).drop_last() =~= decls.take(k as int));
        if k > 0 {
            r.append(", ");
        } else {
            assert(decls.take(1) =~= seq![decls[0]]);
        }
        r.append(p.name.as_str());
        k = k + 1;
    }
    assert(decls.take(k as int) =~= decls);
    r
}

fn below_max(max: Option<u32>, count: u64) -> (r: bool)
    ensures
        r == match max {
            Some(m) => count < m,
            None => true,
        },
{
    match max {
        Some(m) => count < m as u64,
        None => true,
    }
}

proof fn lemma_run_step(nodes: Seq<XmlNode>, ids: Seq<usize>, next: int, name: Seq<char>)
    requires
        0 <= next < ids.len(),
        nodes[ids[next] as int].name@ == name,
    ensures
        run_count(nodes, ids, next, name) == 1 + run_count(nodes, ids, next + 1, name),
{
}

/// Every departure of node `i` from the declaration `decl`.
fn element(schema: &Schema, decl: &Element, doc: &XmlDocument, i: usize, path: &str, out: &mut Vec<ValidationIssue>)
    requires
        doc.wf(),
        i < doc.nodes@.len(),
    ensures
        issues_view(final(out)@) == issues_view(old(out)@) + element_issues(
            schema@,
            decl@,
            doc.nodes@,
            i as int,
            path@,
        ),
    decreases doc.nodes@.len() - i, 3int,
{
    let ghost start = issues_view(out@);
    match &decl.kind {
        Kind::Any => {
            assert(issues_view(out@) =~= start + Seq::<Issue>::empty());
        },
        Kind::Builtin(builtin) => {
            reject_children(doc, i, path, out);
            value(builtin.as_str(), doc.text(i), path, out);
            proof {
                lemma_assoc(
                    start,
                    reject_issues(doc.nodes@, kids(doc.nodes@, i as int), path@),
                    value_issues(builtin@, text_of(doc.nodes@[i as int]), path@),
                );
            }
        },
        Kind::Named(name) => match schema.declared_type(name.as_str()) {
            Some(ct) => complex_type(schema, ct, doc, i, path, out),
            None => {
                let message = joined("type ", name.as_str(), " is not declared");
                push_issue(out, "type", message.as_str(), path);
                assert(issues_view(out@) =~= start + seq![issue("type"@, message@, path@)]);
            },
        },
        Kind::Inline(ct) => complex_type(schema, ct, doc, i, path, out),
    }
}

/// Every departure of node `i` from the complex type `ct`.
fn complex_type(schema: &Schema, ct: &ComplexType, doc: &XmlDocument, i: usize, path: &str, out: &mut Vec<ValidationIssue>)
    requires
        doc.wf(),
        i < doc.nodes@.len(),
    ensures
        issues_view(final(out)@) == issues_view(old(out)@) + complex_issues(
            schema@,
            ct@,
            doc.nodes@,
            i as int,
            path@,
        ),
    decreases doc.nodes@.len() - i, 2int,
{
    let ghost start = issues_view(out@);
    attributes(ct, doc, i, path, out);
    let ghost mid = issues_view(out@);
    match &ct.content {
        Content::Empty => reject_children(doc, i, path, out),
        Content::Simple(builtin) => {
            reject_children(doc, i, path, out);
            value(builtin.as_str(), doc.text(i), path, out);
            proof {
                lemma_assoc(
                    mid,
                    reject_issues(doc.nodes@, kids(doc.nodes@, i as int), path@),
                    value_issues(builtin@, text_of(doc.nodes@[i as int]), path@),
                );
            }
        },
        Content::Sequence(ps) => sequence(schema, ps.as_slice(), doc, i, path, out),
        Content::All(ps) => all(schema, ps.as_slice(), doc, i, path, out),
        Content::Choice(ps) => choice(schema, ps.as_slice(), doc, i, path, out),
    }
    proof {
        lemma_assoc(
            start,
            attribute_issues(doc.nodes@, i as int, ct@, path@),
            issues_view(out@).subrange(mid.len() as int, issues_view(out@).len() as int),
        );
        assert(issues_view(out@) =~= mid + issues_view(out@).subrange(mid.len() as int, issues_view(out@).len() as int));
    }
}

/// A sequence takes its particles in order, each as many times as its name
/// runs and `maxOccurs` allows; what is left is not expected.
fn sequence(schema: &Schema, particles: &[Element], doc: &XmlDocument, i: usize, path: &str, out: &mut Vec<ValidationIssue>)
    requires
        doc.wf(),
        i < doc.nodes@.len(),
    ensures
        issues_view(final(out)@) == issues_view(old(out)@) + sequence_from(
            schema@,
            element_decls(particles@),
            doc.nodes@,
            i as int,
            path@,
            0,
            0,
        ),
    decreases doc.nodes@.len() - i, 0int,
{
    let ghost nodes = doc.nodes@;
    let ghost ps = element_decls(particles@);
    let ghost s = schema@;
    let ks = doc.element_children(i);
    proof {
        lemma_kids(nodes, i as int);
        lemma_element_decls(particles@);
    }
    let ghost start = issues_view(out@);
    let ghost total = sequence_from(s, ps, nodes, i as int, path@, 0, 0);
    let mut next: usize = 0;
    let mut pi: usize = 0;
    assert(start + total =~= issues_view(out@) + sequence_from(s, ps, nodes, i as int, path@, 0, 0));
    while pi < particles.len()
        invariant
            doc.wf(),
            nodes == doc.nodes@,
            s == schema@,
            i < nodes.len(),
            ps == element_decls(particles@),
            ps.len() == particles@.len(),
            forall|q: int| 0 <= q < particles@.len() ==> #[trigger] ps[q] == particles@[q]@,
            ks@ == kids(nodes, i as int),
            forall|q: int| 0 <= q < ks@.len() ==> i < #[trigger] ks@[q] < nodes.len(),
            pi <= particles@.len(),
            next <= ks@.len(),
            start + total == issues_view(out@) + sequence_from(s, ps, nodes, i as int, path@, pi as int, next as int),
        decreases particles@.len() - pi,
    {
        let p = &particles[pi];
        assert(ps[pi as int] == p@);
        let ghost before = issues_view(out@);
        let ghost first = next;
        let ghost n = taken(nodes, ks@, first as int, p@);
        let mut count: u64 = 0;
        assert(before + Seq::<Issue>::empty() =~= before);
        while next < ks.len() && same_text(doc.nodes[ks[next]].name.as_str(), p.name.as_str())
            && below_max(p.max, count)
            invariant
                doc.wf(),
                nodes == doc.nodes@,
                s == schema@,
                i < nodes.len(),
                ks@ == kids(nodes, i as int),
                forall|q: int| 0 <= q < ks@.len() ==> i < #[trigger] ks@[q] < nodes.len(),
                first <= next <= ks@.len(),
                next == first + count,
                run_count(nodes, ks@, first as int, p@.name) == count + run_count(nodes, ks@, next as int, p@.name),
                p@.max matches Some(m) ==> count <= m,
                issues_view(out@) == before + run_issues(s, p@, nodes, i as int, path@, first as int, count as int),
            decreases ks@.len() - next,
        {
            let c = ks[next];
            proof {
                lemma_run_step(nodes, ks@, next as int, p@.name);
            }
            count = count + 1;
            let at = child_path(path, p, count);
            let ghost mid = issues_view(out@);
            element(schema, p, doc, c, at.as_str(), out);
            proof {
                lemma_assoc(
                    before,
                    run_issues(s, p@, nodes, i as int, path@, first as int, count - 1),
                    element_issues(s, p@, nodes, c as int, at@),
                );
            }
            next = next + 1;
        }
        assert(count == n);
        occurs(p, count, path, out);
        proof {
            lemma_assoc(
                before,
                run_issues(s, p@, nodes, i as int, path@, first as int, n as int),
                occurs_issues(p@, n, path@),
            );
            lemma_assoc(
                before,
                run_issues(s, p@, nodes, i as int, path@, first as int, n as int) + occurs_issues(p@, n, path@),
                sequence_from(s, ps, nodes, i as int, path@, pi + 1, next as int),
            );
            lemma_assoc(
                issues_view(out@).subrange(0, before.len() as int),
                issues_view(out@).subrange(before.len() as int, issues_view(out@).len() as int),
                sequence_from(s, ps, nodes, i as int, path@, pi + 1, next as int),
            );
            assert(issues_view(out@) =~= before + (run_issues(s, p@, nodes, i as int, path@, first as int, n as int) + occurs_issues(p@, n, path@)));
        }
        pi = pi + 1;
    }
    let none: Vec<Element> = Vec::new();
    assert(element_decls(none@) =~= Seq::<ElementDecl>::empty());
    unexpected(none.as_slice(), doc, &ks, next, path, out);
}

/// `all` admits its particles in any order and bounds each.
fn all(schema: &Schema, particles: &[Element], doc: &XmlDocument, i: usize, path: &str, out: &mut Vec<ValidationIssue>)
    requires
        doc.wf(),
        i < doc.nodes@.len(),
    ensures
        issues_view(final(out)@) == issues_view(old(out)@) + all_issues(
            schema@,
            element_decls(particles@),
            doc.nodes@,
            i as int,
            path@,
        ),
    decreases doc.nodes@.len() - i, 0int,
{
    let ghost nodes = doc.nodes@;
    let ghost ps = element_decls(particles@);
    let ghost s = schema@;
    let ks = doc.element_children(i);
    proof {
        lemma_kids(nodes, i as int);
        lemma_element_decls(particles@);
    }
    let ghost start = issues_view(out@);
    let mut pi: usize = 0;
    assert(start + Seq::<Issue>::empty() =~= start);
    while pi < particles.len()
        invariant
            doc.wf(),
            nodes == doc.nodes@,
            s == schema@,
            i < nodes.len(),
            ps == element_decls(particles@),
            ps.len() == particles@.len(),
            forall|q: int| 0 <= q < particles@.len() ==> #[trigger] ps[q] == particles@[q]@,
            ks@ == kids(nodes, i as int),
            forall|q: int| 0 <= q < ks@.len() ==> i < #[trigger] ks@[q] < nodes.len(),
            pi <= particles@.len(),
            issues_view(out@) == start + all_upto(s, ps, nodes, i as int, path@, pi as int),
        decreases particles@.len() - pi,
    {
        let p = &particles[pi];
        assert(ps[pi as int] == p@);
        let ghost before = issues_view(out@);
        let mut count: u64 = 0;
        let mut k: usize = 0;
        assert(ks@.take(0) =~= Seq::<usize>::empty());
        assert(before + Seq::<Issue>::empty() =~= before);
        while k < ks.len()
            invariant
                doc.wf(),
                nodes == doc.nodes@,
                s == schema@,
                i < nodes.len(),
                ks@ == kids(nodes, i as int),
                forall|q: int| 0 <= q < ks@.len() ==> i < #[trigger] ks@[q] < nodes.len(),
                k <= ks@.len(),
                count <= k,
                count == count_named(nodes, ks@.take(k as int), p@.name),
                issues_view(out@) == before + matches_upto(s, p@, nodes, i as int, path@, k as int),
            decreases ks@.len() - k,
        {
            let c = ks[k];
            assert(ks@.take(k + 1).drop_last() =~= ks@.take(k as int));
            assert(ks@.take(k + 1).last() == c);
            if same_text(doc.nodes[c].name.as_str(), p.name.as_str()) {
                count = count + 1;
                let at = child_path(path, p, count);
                element(schema, p, doc, c, at.as_str(), out);
                proof {
                    lemma_assoc(
                        before,
                        matches_upto(s, p@, nodes, i as int, path@, k as int),
                        element_issues(s, p@, nodes, c as int, at@),
                    );
                }
            } else {
                assert(matches_upto(s, p@, nodes, i as int, path@, k + 1) =~= matches_upto(s, p@, nodes, i as int, path@, k as int));
            }
            k = k + 1;
        }
        assert(ks@.take(k as int) =~= ks@);
        occurs(p, count, path, out);
        proof {
            lemma_assoc(
                before,
                matches_upto(s, p@, nodes, i as int, path@, ks@.len() as int),
                occurs_issues(p@, count as nat, path@),
            );
            lemma_assoc(
                start,
                all_upto(s, ps, nodes, i as int, path@, pi as int),
                matches_upto(s, p@, nodes, i as int, path@, ks@.len() as int) + occurs_issues(p@, count as nat, path@),
            );
            lemma_assoc(
                all_upto(s, ps, nodes, i as int, path@, pi as int),
                matches_upto(s, p@, nodes, i as int, path@, ks@.len() as int),
                occurs_issues(p@, count as nat, path@),
            );
        }
        pi = pi + 1;
    }
    unexpected(particles, doc, &ks, 0, path, out);
    assert(ks@.skip(0) =~= ks@);
    proof {
        lemma_assoc(
            start,
            all_upto(s, ps, nodes, i as int, path@, ps.len() as int),
            unexpected_issues(ps, nodes, ks@, path@),
        );
    }
}

/// A choice wants exactly one of its particles.
fn choice(schema: &Schema, particles: &[Element], doc: &XmlDocument, i: usize, path: &str, out: &mut Vec<ValidationIssue>)
    requires
        doc.wf(),
        i < doc.nodes@.len(),
    ensures
        issues_view(final(out)@) == issues_view(old(out)@) + choice_issues(
            schema@,
            element_decls(particles@),
            doc.nodes@,
            i as int,
            path@,
        ),
    decreases doc.nodes@.len() - i, 1int,
{
    let ghost nodes = doc.nodes@;
    let ghost ps = element_decls(particles@);
    let ghost s = schema@;
    let ks = doc.element_children(i);
    proof {
        lemma_kids(nodes, i as int);
        lemma_element_decls(particles@);
    }
    let ghost start = issues_view(out@);
    let mut picked: Vec<usize> = Vec::new();
    let mut pi: usize = 0;
    assert(ps.take(0) =~= Seq::<ElementDecl>::empty());
    while pi < particles.len()
        invariant
            nodes == doc.nodes@,
            ps == element_decls(particles@),
            ps.len() == particles@.len(),
            forall|q: int| 0 <= q < particles@.len() ==> #[trigger] ps[q] == particles@[q]@,
            ks@ == kids(nodes, i as int),
            forall|q: int| 0 <= q < ks@.len() ==> i < #[trigger] ks@[q] < nodes.len(),
            pi <= particles@.len(),
            picked@.len() == chosen(ps.take(pi as int), nodes, ks@).len(),
            forall|q: int| 0 <= q < picked@.len() ==> #[trigger] picked@[q] < particles@.len(),
            forall|q: int| 0 <= q < picked@.len() ==> particles@[#[trigger] picked@[q] as int]@ == chosen(ps.take(pi as int), nodes, ks@)[q],
        decreases particles@.len() - pi,
    {
        assert(ps.take(pi + 1).drop_last() =~= ps.take(pi as int));
        assert(ps.take(pi + 1).last() == particles@[pi as int]@);
        if present_among(doc, &ks, particles[pi].name.as_str()) {
            picked.push(pi);
        }
        pi = pi + 1;
    }
    assert(ps.take(pi as int) =~= ps);
    let ghost picks = chosen(ps, nodes, ks@);
    if picked.len() == 0 {
        let all_positions = positions(particles.len());
        let names = names_joined(particles, &all_positions, Ghost(ps));
        let message = joined("one of ", names.as_str(), " is required");
        push_issue(out, "occurs", message.as_str(), path);
        assert(issues_view(out@) =~= start + seq![issue("occurs"@, message@, path@)]);
    } else if picked.len() == 1 {
        let j = picked[0];
        let one = vstd::slice::slice_subrange(particles, j, j + 1);
        proof {
            lemma_element_decls(one@);
            assert(one@[0] == particles@[j as int]);
        }
        assert(element_decls(one@) =~= seq![picks[0]]);
        all(schema, one, doc, i, path, out);
    } else {
        let names = names_joined(particles, &picked, Ghost(picks));
        let message = joined("only one of ", names.as_str(), " may appear");
        push_issue(out, "content", message.as_str(), path);
        assert(issues_view(out@) =~= start + seq![issue("content"@, message@, path@)]);
    }
    let ghost mid = issues_view(out@);
    unexpected(particles, doc, &ks, 0, path, out);
    assert(ks@.skip(0) =~= ks@);
    proof {
        lemma_assoc(
            start,
            mid.subrange(start.len() as int, mid.len() as int),
            unexpected_issues(ps, nodes, ks@, path@),
        );
        assert(mid =~= start + mid.subrange(start.len() as int, mid.len() as int));
    }
}

/// The positions `0..n`.
fn positions(n: usize) -> (r: Vec<usize>)
    ensures
        r@.len() == n,
        forall|q: int| 0 <= q < n ==> #[trigger] r@[q] == q,
{
    let mut r: Vec<usize> = Vec::new();
    let mut k: usize = 0;
    while k < n
        invariant
            k <= n,
            r@.len() == k,
            forall|q: int| 0 <= q < k ==> #[trigger] r@[q] == q,
        decreases n - k,
    {
        r.push(k);
        k = k + 1;
    }
    r
}

/// Every departure of the document `doc` from `schema`.
pub fn check(schema: &Schema, doc: &XmlDocument) -> (r: Vec<ValidationIssue>)
    requires
        doc.wf(),
    ensures
        issues_view(r@) == check_issues(schema@, doc.nodes@, doc.root as int),
{
    let root = doc.root;
    proof {
        crate::xml::lemma_root(doc.nodes@);
    }
    let mut issues: Vec<ValidationIssue> = Vec::new();
    assert(issues_view(issues@) =~= Seq::<Issue>::empty());
    let name = doc.nodes[root].name.as_str();
    let mut path = "/".to_owned();
    path.append(name);
    match schema.declared_element(name) {
        Some(declaration) => element(schema, declaration, doc, root, path.as_str(), &mut issues),
        None => {
            let message = joined("element ", name, " is not declared");
            push_issue(&mut issues, "root", message.as_str(), path.as_str());
        },
    }
    assert(issues_view(issues@) =~= check_issues(schema@, doc.nodes@, doc.root as int));
    issues
}

/// The built-in types whose lexical forms this contract checks.
pub open spec fn is_checked_builtin(builtin: Seq<char>) -> bool {
    ||| builtin == "boolean"@
    ||| builtin == "integer"@ || builtin == "int"@ || builtin == "long"@ || builtin == "short"@
        || builtin == "byte"@
    ||| builtin == "unsignedLong"@ || builtin == "unsignedInt"@ || builtin == "unsignedShort"@
        || builtin == "unsignedByte"@ || builtin == "nonNegativeInteger"@
    ||| builtin == "positiveInteger"@ || builtin == "negativeInteger"@ || builtin
        == "nonPositiveInteger"@
    ||| builtin == "decimal"@ || builtin == "double"@ || builtin == "float"@
    ||| builtin == "date"@ || builtin == "dateTime"@ || builtin == "time"@
}

/// A type this contract does not check is not a type it refuses: any text
/// holds as a value of it.
pub proof fn law_unchecked_types_hold(builtin: Seq<char>, text: Seq<char>, path: Seq<char>)
    requires
        !is_checked_builtin(builtin),
    ensures
        value_issues(builtin, text, path) == Seq::<Issue>::empty(),
{
}

// ---------------------------------------------------------------------------
// Every departure is reported with what refused it and where

/// The codes that name what failed.
pub open spec fn is_issue_code(code: Seq<char>) -> bool {
    ||| code == "root"@
    ||| code == "type"@
    ||| code == "attribute"@
    ||| code == "content"@
    ||| code == "occurs"@
    ||| code == "value"@
}

/// `p` is `prefix` or lies below it.
pub open spec fn extends(p: Seq<char>, prefix: Seq<char>) -> bool {
    prefix.len() <= p.len() && p.subrange(0, prefix.len() as int) == prefix
}

/// `p` is `path` itself or a path below it: `path/...`.
pub open spec fn at_or_below(p: Seq<char>, path: Seq<char>) -> bool {
    p == path || extends(p, path + "/"@)
}

/// Every issue names what failed and has a path at or below `path`.
pub open spec fn reported_within(issues: Seq<Issue>, path: Seq<char>) -> bool {
    forall|k: int|
        0 <= k < issues.len() ==> is_issue_code((#[trigger] issues[k]).code) && (issues[k].path matches Some(
            p,
        ) && at_or_below(p, path))
}

proof fn lemma_within_add(a: Seq<Issue>, b: Seq<Issue>, path: Seq<char>)
    requires
        reported_within(a, path),
        reported_within(b, path),
    ensures
        reported_within(a + b, path),
{
    assert forall|k: int| 0 <= k < (a + b).len() implies is_issue_code((#[trigger] (a + b)[k]).code)
        && ((a + b)[k].path matches Some(p) && at_or_below(p, path)) by {
        if k < a.len() {
            assert((a + b)[k] == a[k]);
        } else {
            assert((a + b)[k] == b[k - a.len()]);
        }
    }
}

proof fn lemma_within_empty(path: Seq<char>)
    ensures
        reported_within(Seq::<Issue>::empty(), path),
{
}

proof fn lemma_below_add(path: Seq<char>, rest: Seq<char>)
    requires
        rest.len() > 0,
        rest[0] == '/',
    ensures
        at_or_below(path + rest, path),
{
    reveal_strlit("/");
    assert((path + rest).subrange(0, (path + "/"@).len() as int) =~= path + "/"@);
}

proof fn lemma_below_slash(path: Seq<char>, tail: Seq<char>)
    ensures
        at_or_below(path + ("/"@ + tail), path),
{
    reveal_strlit("/");
    lemma_below_add(path, "/"@ + tail);
}

proof fn lemma_below_at(path: Seq<char>, tail: Seq<char>)
    ensures
        at_or_below(path + ("/@"@ + tail), path),
{
    reveal_strlit("/@");
    lemma_below_add(path, "/@"@ + tail);
}

proof fn lemma_within_weaken(issues: Seq<Issue>, inner: Seq<char>, path: Seq<char>)
    requires
        reported_within(issues, inner),
        at_or_below(inner, path),
    ensures
        reported_within(issues, path),
{
    reveal_strlit("/");
    assert forall|k: int| 0 <= k < issues.len() implies is_issue_code((#[trigger] issues[k]).code)
        && (issues[k].path matches Some(p) && at_or_below(p, path)) by {
        let p = issues[k].path.unwrap();
        if p != inner && inner != path {
            let n = (path + "/"@).len() as int;
            assert(p.subrange(0, n) =~= p.subrange(0, (inner + "/"@).len() as int).subrange(0, n));
            assert(inner.subrange(0, n) =~= (inner + "/"@).subrange(0, n));
        }
    }
}

proof fn lemma_one_within(code: Seq<char>, message: Seq<char>, at: Seq<char>, path: Seq<char>)
    requires
        is_issue_code(code),
        at_or_below(at, path),
    ensures
        reported_within(seq![issue(code, message, at)], path),
{
}

proof fn lemma_push_within(a: Seq<Issue>, code: Seq<char>, message: Seq<char>, at: Seq<char>, path: Seq<char>)
    requires
        reported_within(a, path),
        is_issue_code(code),
        at_or_below(at, path),
    ensures
        reported_within(a.push(issue(code, message, at)), path),
{
    lemma_one_within(code, message, at, path);
    lemma_within_add(a, seq![issue(code, message, at)], path);
    assert(a.push(issue(code, message, at)) =~= a + seq![issue(code, message, at)]);
}

proof fn lemma_value_within(builtin: Seq<char>, text: Seq<char>, path: Seq<char>)
    ensures
        reported_within(value_issues(builtin, text, path), path),
{
}

proof fn lemma_reject_within(nodes: Seq<XmlNode>, ids: Seq<usize>, path: Seq<char>)
    ensures
        reported_within(reject_issues(nodes, ids, path), path),
    decreases ids.len(),
{
    if ids.len() > 0 {
        lemma_reject_within(nodes, ids.drop_last(), path);
        let name = nodes[ids.last() as int].name@;
        lemma_below_slash(path, name);
        assert(path + "/"@ + name == path + ("/"@ + name));
        lemma_push_within(reject_issues(nodes, ids.drop_last(), path), "content"@, "no child element is allowed here"@, path + "/"@ + name, path);
    }
}

proof fn lemma_declared_attributes_within(nodes: Seq<XmlNode>, i: int, declared: Seq<AttributeDecl>, path: Seq<char>)
    ensures
        reported_within(declared_attribute_issues(nodes, i, declared, path), path),
    decreases declared.len(),
{
    if declared.len() > 0 {
        let a = declared.last();
        let at = path + "/@"@ + a.name;
        lemma_declared_attributes_within(nodes, i, declared.drop_last(), path);
        lemma_below_at(path, a.name);
        assert(at == path + ("/@"@ + a.name));
        let tail = match attribute_value(nodes[i].attributes@, a.name) {
            Some(text) => value_issues(a.builtin, text, at),
            None => if a.required {
                seq![issue("attribute"@, "required attribute is missing"@, at)]
            } else {
                Seq::empty()
            },
        };
        if let Some(text) = attribute_value(nodes[i].attributes@, a.name) {
            lemma_value_within(a.builtin, text, at);
        } else if a.required {
            lemma_one_within("attribute"@, "required attribute is missing"@, at, at);
        }
        lemma_within_weaken(tail, at, path);
        lemma_within_add(declared_attribute_issues(nodes, i, declared.drop_last(), path), tail, path);
    }
}

proof fn lemma_undeclared_within(present: Seq<XmlAttribute>, declared: Seq<AttributeDecl>, path: Seq<char>)
    ensures
        reported_within(undeclared_attribute_issues(present, declared, path), path),
    decreases present.len(),
{
    if present.len() > 0 {
        lemma_undeclared_within(present.drop_last(), declared, path);
        let a = present.last();
        lemma_below_at(path, a.0@);
        assert(path + "/@"@ + a.0@ == path + ("/@"@ + a.0@));
        lemma_push_within(undeclared_attribute_issues(present.drop_last(), declared, path), "attribute"@, "attribute is not declared"@, path + "/@"@ + a.0@, path);
    }
}

proof fn lemma_attributes_within(nodes: Seq<XmlNode>, i: int, ct: ComplexTypeDecl, path: Seq<char>)
    ensures
        reported_within(attribute_issues(nodes, i, ct, path), path),
{
    lemma_declared_attributes_within(nodes, i, ct.attributes, path);
    lemma_undeclared_within(nodes[i].attributes@, ct.attributes, path);
    lemma_within_add(
        declared_attribute_issues(nodes, i, ct.attributes, path),
        undeclared_attribute_issues(nodes[i].attributes@, ct.attributes, path),
        path,
    );
}

proof fn lemma_occurs_within(particle: ElementDecl, count: nat, path: Seq<char>)
    ensures
        reported_within(occurs_issues(particle, count, path), path),
{
    let at = path + "/"@ + particle.name;
    lemma_below_slash(path, particle.name);
    assert(at == path + ("/"@ + particle.name));
}

proof fn lemma_unexpected_within(particles: Seq<ElementDecl>, nodes: Seq<XmlNode>, ids: Seq<usize>, path: Seq<char>)
    ensures
        reported_within(unexpected_issues(particles, nodes, ids, path), path),
    decreases ids.len(),
{
    if ids.len() > 0 {
        lemma_unexpected_within(particles, nodes, ids.drop_last(), path);
        let name = nodes[ids.last() as int].name@;
        lemma_below_slash(path, name);
        assert(path + "/"@ + name == path + ("/"@ + name));
        lemma_push_within(unexpected_issues(particles, nodes, ids.drop_last(), path), "content"@, "element is not expected here"@, path + "/"@ + name, path);
    }
}

proof fn lemma_child_path_below(path: Seq<char>, p: ElementDecl, n: nat)
    ensures
        at_or_below(child_path_text(path, p, n), path),
{
    if p.max == Some(1u32) {
        lemma_below_slash(path, p.name);
        assert(path + "/"@ + p.name == path + ("/"@ + p.name));
    } else {
        let tail = p.name + "["@ + decimal(n) + "]"@;
        lemma_below_slash(path, tail);
        assert(path + "/"@ + p.name + "["@ + decimal(n) + "]"@ =~= path + ("/"@ + tail));
    }
}

proof fn lemma_element_within(s: SchemaDecl, d: ElementDecl, nodes: Seq<XmlNode>, i: int, path: Seq<char>)
    ensures
        reported_within(element_issues(s, d, nodes, i, path), path),
    decreases nodes.len() - i, 6int, 0int,
{
    if 0 <= i < nodes.len() {
        match d.kind {
            KindDecl::Any => {},
            KindDecl::Builtin(b) => {
                lemma_reject_within(nodes, kids(nodes, i), path);
                lemma_value_within(b, text_of(nodes[i]), path);
                lemma_within_add(reject_issues(nodes, kids(nodes, i), path), value_issues(b, text_of(nodes[i]), path), path);
            },
            KindDecl::Named(n) => if s.types.contains_key(n) {
                lemma_complex_within(s, s.types[n], nodes, i, path);
            },
            KindDecl::Inline(ct) => lemma_complex_within(s, *ct, nodes, i, path),
        }
    }
}

proof fn lemma_complex_within(s: SchemaDecl, ct: ComplexTypeDecl, nodes: Seq<XmlNode>, i: int, path: Seq<char>)
    ensures
        reported_within(complex_issues(s, ct, nodes, i, path), path),
    decreases nodes.len() - i, 5int, 0int,
{
    if 0 <= i < nodes.len() {
        lemma_attributes_within(nodes, i, ct, path);
        let rest = match ct.content {
            ContentDecl::Empty => reject_issues(nodes, kids(nodes, i), path),
            ContentDecl::Simple(b) => reject_issues(nodes, kids(nodes, i), path) + value_issues(b, text_of(nodes[i]), path),
            ContentDecl::Sequence(ps) => sequence_from(s, ps, nodes, i, path, 0, 0),
            ContentDecl::All(ps) => all_issues(s, ps, nodes, i, path),
            ContentDecl::Choice(ps) => choice_issues(s, ps, nodes, i, path),
        };
        match ct.content {
            ContentDecl::Empty => lemma_reject_within(nodes, kids(nodes, i), path),
            ContentDecl::Simple(b) => {
                lemma_reject_within(nodes, kids(nodes, i), path);
                lemma_value_within(b, text_of(nodes[i]), path);
                lemma_within_add(reject_issues(nodes, kids(nodes, i), path), value_issues(b, text_of(nodes[i]), path), path);
            },
            ContentDecl::Sequence(ps) => lemma_sequence_within(s, ps, nodes, i, path, 0, 0),
            ContentDecl::All(ps) => lemma_all_within(s, ps, nodes, i, path),
            ContentDecl::Choice(ps) => lemma_choice_within(s, ps, nodes, i, path),
        }
        lemma_within_add(attribute_issues(nodes, i, ct, path), rest, path);
    }
}

proof fn lemma_choice_within(s: SchemaDecl, ps: Seq<ElementDecl>, nodes: Seq<XmlNode>, i: int, path: Seq<char>)
    ensures
        reported_within(choice_issues(s, ps, nodes, i, path), path),
    decreases nodes.len() - i, 4int, 0int,
{
    if 0 <= i < nodes.len() {
        let picked = chosen(ps, nodes, kids(nodes, i));
        let first = if picked.len() == 0 {
            seq![issue("occurs"@, "one of "@ + joined_names(ps) + " is required"@, path)]
        } else if picked.len() == 1 {
            all_issues(s, seq![picked[0]], nodes, i, path)
        } else {
            seq![issue("content"@, "only one of "@ + joined_names(picked) + " may appear"@, path)]
        };
        if picked.len() == 1 {
            lemma_all_within(s, seq![picked[0]], nodes, i, path);
        }
        lemma_unexpected_within(ps, nodes, kids(nodes, i), path);
        lemma_within_add(first, unexpected_issues(ps, nodes, kids(nodes, i), path), path);
    }
}

proof fn lemma_all_within(s: SchemaDecl, ps: Seq<ElementDecl>, nodes: Seq<XmlNode>, i: int, path: Seq<char>)
    ensures
        reported_within(all_issues(s, ps, nodes, i, path), path),
    decreases nodes.len() - i, 3int, 0int,
{
    if 0 <= i < nodes.len() {
        lemma_all_upto_within(s, ps, nodes, i, path, ps.len() as int);
        lemma_unexpected_within(ps, nodes, kids(nodes, i), path);
        lemma_within_add(
            all_upto(s, ps, nodes, i, path, ps.len() as int),
            unexpected_issues(ps, nodes, kids(nodes, i), path),
            path,
        );
    }
}

proof fn lemma_all_upto_within(s: SchemaDecl, ps: Seq<ElementDecl>, nodes: Seq<XmlNode>, i: int, path: Seq<char>, n: int)
    ensures
        reported_within(all_upto(s, ps, nodes, i, path, n), path),
    decreases nodes.len() - i, 2int, n,
{
    if 0 < n <= ps.len() && 0 <= i < nodes.len() {
        let p = ps[n - 1];
        let m = kids(nodes, i).len() as int;
        lemma_all_upto_within(s, ps, nodes, i, path, n - 1);
        lemma_matches_within(s, p, nodes, i, path, m);
        lemma_occurs_within(p, count_named(nodes, kids(nodes, i), p.name), path);
        lemma_within_add(all_upto(s, ps, nodes, i, path, n - 1), matches_upto(s, p, nodes, i, path, m), path);
        lemma_within_add(
            all_upto(s, ps, nodes, i, path, n - 1) + matches_upto(s, p, nodes, i, path, m),
            occurs_issues(p, count_named(nodes, kids(nodes, i), p.name), path),
            path,
        );
    }
}

proof fn lemma_matches_within(s: SchemaDecl, p: ElementDecl, nodes: Seq<XmlNode>, i: int, path: Seq<char>, m: int)
    ensures
        reported_within(matches_upto(s, p, nodes, i, path, m), path),
    decreases nodes.len() - i, 1int, m,
{
    if 0 < m <= kids(nodes, i).len() && 0 <= i < nodes.len() {
        let ks = kids(nodes, i);
        let c = ks[m - 1] as int;
        lemma_kids(nodes, i);
        lemma_matches_within(s, p, nodes, i, path, m - 1);
        let at = child_path_text(path, p, count_named(nodes, ks.take(m), p.name));
        let tail = if nodes[c].name@ == p.name {
            element_issues(s, p, nodes, c, at)
        } else {
            Seq::empty()
        };
        if nodes[c].name@ == p.name {
            lemma_element_within(s, p, nodes, c, at);
            lemma_child_path_below(path, p, count_named(nodes, ks.take(m), p.name));
            lemma_within_weaken(tail, at, path);
        }
        lemma_within_add(matches_upto(s, p, nodes, i, path, m - 1), tail, path);
    }
}

proof fn lemma_sequence_within(s: SchemaDecl, ps: Seq<ElementDecl>, nodes: Seq<XmlNode>, i: int, path: Seq<char>, pi: int, next: int)
    ensures
        reported_within(sequence_from(s, ps, nodes, i, path, pi, next), path),
    decreases nodes.len() - i, 2int, ps.len() - pi,
{
    if 0 <= i < nodes.len() && pi >= 0 {
        if pi >= ps.len() {
            lemma_unexpected_within(Seq::empty(), nodes, kids(nodes, i).skip(next), path);
        } else {
            let p = ps[pi];
            let n = taken(nodes, kids(nodes, i), next, p);
            lemma_run_within(s, p, nodes, i, path, next, n as int);
            lemma_occurs_within(p, n, path);
            lemma_sequence_within(s, ps, nodes, i, path, pi + 1, next + n);
            lemma_within_add(run_issues(s, p, nodes, i, path, next, n as int), occurs_issues(p, n, path), path);
            lemma_within_add(
                run_issues(s, p, nodes, i, path, next, n as int) + occurs_issues(p, n, path),
                sequence_from(s, ps, nodes, i, path, pi + 1, next + n),
                path,
            );
        }
    }
}

proof fn lemma_run_within(s: SchemaDecl, p: ElementDecl, nodes: Seq<XmlNode>, i: int, path: Seq<char>, next: int, n: int)
    ensures
        reported_within(run_issues(s, p, nodes, i, path, next, n), path),
    decreases nodes.len() - i, 1int, n,
{
    if 0 < n && 0 <= next && next + n <= kids(nodes, i).len() && 0 <= i < nodes.len() {
        let c = kids(nodes, i)[next + n - 1] as int;
        lemma_kids(nodes, i);
        lemma_run_within(s, p, nodes, i, path, next, n - 1);
        let at = child_path_text(path, p, n as nat);
        lemma_element_within(s, p, nodes, c, at);
        lemma_child_path_below(path, p, n as nat);
        lemma_within_weaken(element_issues(s, p, nodes, c, at), at, path);
        lemma_within_add(run_issues(s, p, nodes, i, path, next, n - 1), element_issues(s, p, nodes, c, at), path);
    }
}

/// Each departure is reported with what refused it — `root`, `type`,
/// `attribute`, `content`, `occurs` or `value` — and the XPath of where it
/// happened: the root element's `/name` itself, or a path under `/name/`.
pub proof fn law_issues_are_named_and_placed(s: SchemaDecl, nodes: Seq<XmlNode>, root: int)
    requires
        0 <= root < nodes.len(),
    ensures
        reported_within(check_issues(s, nodes, root), "/"@ + nodes[root].name@),
{
    let path = "/"@ + nodes[root].name@;
    if s.elements.contains_key(nodes[root].name@) {
        lemma_element_within(s, s.elements[nodes[root].name@], nodes, root, path);
    }
}

/// A value is read without the white space around it: surrounding white
/// space changes neither whether it holds nor what its issue says.
pub proof fn law_values_ignore_surrounding_space(builtin: Seq<char>, text: Seq<char>, path: Seq<char>)
    ensures
        value_issues(builtin, text, path) == value_issues(builtin, trimmed(text), path),
{
    lemma_trimmed_idempotent(text);
}

/// An element with no type at all is `anyType` and admits anything.
pub proof fn law_untyped_element_admits_anything(s: SchemaDecl, d: ElementDecl, nodes: Seq<XmlNode>, i: int, path: Seq<char>)
    requires
        d.kind is Any,
    ensures
        element_issues(s, d, nodes, i, path) == Seq::<Issue>::empty(),
{
}


// ---------------------------------------------------------------------------
// How many departures there are does not depend on where they are reported

proof fn lemma_reject_count(nodes: Seq<XmlNode>, ids: Seq<usize>, path: Seq<char>)
    ensures
        reject_issues(nodes, ids, path).len() == ids.len(),
    decreases ids.len(),
{
    if ids.len() > 0 {
        lemma_reject_count(nodes, ids.drop_last(), path);
    }
}

proof fn lemma_unexpected_count(ps: Seq<ElementDecl>, nodes: Seq<XmlNode>, ids: Seq<usize>, a: Seq<char>, b: Seq<char>)
    ensures
        unexpected_issues(ps, nodes, ids, a).len() == unexpected_issues(ps, nodes, ids, b).len(),
        unexpected_issues(ps, nodes, ids, a).len() == 0 <==> forall|m: int|
            0 <= m < ids.len() ==> names_particle(ps, nodes[#[trigger] ids[m] as int].name@),
    decreases ids.len(),
{
    if ids.len() > 0 {
        let rest = ids.drop_last();
        lemma_unexpected_count(ps, nodes, rest, a, b);
        assert forall|m: int| 0 <= m < rest.len() implies rest[m] == ids[m] by {}
        if (forall|m: int| 0 <= m < ids.len() ==> names_particle(ps, nodes[#[trigger] ids[m] as int].name@)) {
            assert(names_particle(ps, nodes[ids[ids.len() - 1] as int].name@));
        }
    }
}

proof fn lemma_declared_attributes_count(nodes: Seq<XmlNode>, i: int, declared: Seq<AttributeDecl>, a: Seq<char>, b: Seq<char>)
    ensures
        declared_attribute_issues(nodes, i, declared, a).len() == declared_attribute_issues(nodes, i, declared, b).len(),
    decreases declared.len(),
{
    if declared.len() > 0 {
        lemma_declared_attributes_count(nodes, i, declared.drop_last(), a, b);
    }
}

proof fn lemma_undeclared_count(present: Seq<XmlAttribute>, declared: Seq<AttributeDecl>, a: Seq<char>, b: Seq<char>)
    ensures
        undeclared_attribute_issues(present, declared, a).len() == undeclared_attribute_issues(present, declared, b).len(),
    decreases present.len(),
{
    if present.len() > 0 {
        lemma_undeclared_count(present.drop_last(), declared, a, b);
    }
}

proof fn lemma_element_count(s: SchemaDecl, d: ElementDecl, nodes: Seq<XmlNode>, i: int, a: Seq<char>, b: Seq<char>)
    ensures
        element_issues(s, d, nodes, i, a).len() == element_issues(s, d, nodes, i, b).len(),
    decreases nodes.len() - i, 6int, 0int,
{
    if 0 <= i < nodes.len() {
        match d.kind {
            KindDecl::Any => {},
            KindDecl::Builtin(_) => {
                lemma_reject_count(nodes, kids(nodes, i), a);
                lemma_reject_count(nodes, kids(nodes, i), b);
            },
            KindDecl::Named(n) => if s.types.contains_key(n) {
                lemma_complex_count(s, s.types[n], nodes, i, a, b);
            },
            KindDecl::Inline(ct) => lemma_complex_count(s, *ct, nodes, i, a, b),
        }
    }
}

proof fn lemma_complex_count(s: SchemaDecl, ct: ComplexTypeDecl, nodes: Seq<XmlNode>, i: int, a: Seq<char>, b: Seq<char>)
    ensures
        complex_issues(s, ct, nodes, i, a).len() == complex_issues(s, ct, nodes, i, b).len(),
    decreases nodes.len() - i, 5int, 0int,
{
    if 0 <= i < nodes.len() {
        lemma_declared_attributes_count(nodes, i, ct.attributes, a, b);
        lemma_undeclared_count(nodes[i].attributes@, ct.attributes, a, b);
        match ct.content {
            ContentDecl::Empty => {
                lemma_reject_count(nodes, kids(nodes, i), a);
                lemma_reject_count(nodes, kids(nodes, i), b);
            },
            ContentDecl::Simple(_) => {
                lemma_reject_count(nodes, kids(nodes, i), a);
                lemma_reject_count(nodes, kids(nodes, i), b);
            },
            ContentDecl::Sequence(ps) => lemma_sequence_count(s, ps, nodes, i, a, b, 0, 0),
            ContentDecl::All(ps) => lemma_all_count(s, ps, nodes, i, a, b),
            ContentDecl::Choice(ps) => lemma_choice_count(s, ps, nodes, i, a, b),
        }
    }
}

proof fn lemma_choice_count(s: SchemaDecl, ps: Seq<ElementDecl>, nodes: Seq<XmlNode>, i: int, a: Seq<char>, b: Seq<char>)
    ensures
        choice_issues(s, ps, nodes, i, a).len() == choice_issues(s, ps, nodes, i, b).len(),
    decreases nodes.len() - i, 4int, 0int,
{
    if 0 <= i < nodes.len() {
        let picked = chosen(ps, nodes, kids(nodes, i));
        if picked.len() == 1 {
            lemma_all_count(s, seq![picked[0]], nodes, i, a, b);
        }
        lemma_unexpected_count(ps, nodes, kids(nodes, i), a, b);
    }
}

proof fn lemma_all_count(s: SchemaDecl, ps: Seq<ElementDecl>, nodes: Seq<XmlNode>, i: int, a: Seq<char>, b: Seq<char>)
    ensures
        all_issues(s, ps, nodes, i, a).len() == all_issues(s, ps, nodes, i, b).len(),
    decreases nodes.len() - i, 3int, 0int,
{
    if 0 <= i < nodes.len() {
        lemma_all_upto_count(s, ps, nodes, i, a, b, ps.len() as int);
        lemma_unexpected_count(ps, nodes, kids(nodes, i), a, b);
    }
}

proof fn lemma_all_upto_count(s: SchemaDecl, ps: Seq<ElementDecl>, nodes: Seq<XmlNode>, i: int, a: Seq<char>, b: Seq<char>, n: int)
    ensures
        all_upto(s, ps, nodes, i, a, n).len() == all_upto(s, ps, nodes, i, b, n).len(),
    decreases nodes.len() - i, 2int, n,
{
    if 0 < n <= ps.len() && 0 <= i < nodes.len() {
        lemma_all_upto_count(s, ps, nodes, i, a, b, n - 1);
        lemma_matches_count(s, ps[n - 1], nodes, i, a, b, kids(nodes, i).len() as int);
    }
}

proof fn lemma_matches_count(s: SchemaDecl, p: ElementDecl, nodes: Seq<XmlNode>, i: int, a: Seq<char>, b: Seq<char>, m: int)
    ensures
        matches_upto(s, p, nodes, i, a, m).len() == matches_upto(s, p, nodes, i, b, m).len(),
    decreases nodes.len() - i, 1int, m,
{
    if 0 < m <= kids(nodes, i).len() && 0 <= i < nodes.len() {
        let ks = kids(nodes, i);
        let c = ks[m - 1] as int;
        lemma_kids(nodes, i);
        lemma_matches_count(s, p, nodes, i, a, b, m - 1);
        let ordinal = count_named(nodes, ks.take(m), p.name);
        if nodes[c].name@ == p.name {
            lemma_element_count(s, p, nodes, c, child_path_text(a, p, ordinal), child_path_text(b, p, ordinal));
        }
    }
}

proof fn lemma_sequence_count(s: SchemaDecl, ps: Seq<ElementDecl>, nodes: Seq<XmlNode>, i: int, a: Seq<char>, b: Seq<char>, pi: int, next: int)
    ensures
        sequence_from(s, ps, nodes, i, a, pi, next).len() == sequence_from(s, ps, nodes, i, b, pi, next).len(),
    decreases nodes.len() - i, 2int, ps.len() - pi,
{
    if 0 <= i < nodes.len() && pi >= 0 {
        if pi >= ps.len() {
            lemma_unexpected_count(Seq::empty(), nodes, kids(nodes, i).skip(next), a, b);
        } else {
            let p = ps[pi];
            let n = taken(nodes, kids(nodes, i), next, p);
            lemma_run_count(s, p, nodes, i, a, b, next, n as int);
            lemma_sequence_count(s, ps, nodes, i, a, b, pi + 1, next + n);
        }
    }
}

proof fn lemma_run_count(s: SchemaDecl, p: ElementDecl, nodes: Seq<XmlNode>, i: int, a: Seq<char>, b: Seq<char>, next: int, n: int)
    ensures
        run_issues(s, p, nodes, i, a, next, n).len() == run_issues(s, p, nodes, i, b, next, n).len(),
    decreases nodes.len() - i, 1int, n,
{
    if 0 < n && 0 <= next && next + n <= kids(nodes, i).len() && 0 <= i < nodes.len() {
        let c = kids(nodes, i)[next + n - 1] as int;
        lemma_kids(nodes, i);
        lemma_run_count(s, p, nodes, i, a, b, next, n - 1);
        lemma_element_count(s, p, nodes, c, child_path_text(a, p, n as nat), child_path_text(b, p, n as nat));
    }
}


// ---------------------------------------------------------------------------
// What `all` and `choice` hold, in terms of the children alone

/// Whether node `c` holds to the declaration `d`, wherever it stands.
pub open spec fn holds_to(s: SchemaDecl, d: ElementDecl, nodes: Seq<XmlNode>, c: int) -> bool {
    element_issues(s, d, nodes, c, Seq::empty()).len() == 0
}

/// Whether `count` occurrences are within the particle's bounds.
pub open spec fn occurs_within(p: ElementDecl, count: nat) -> bool {
    count >= p.min && (p.max matches Some(max) ==> count <= max)
}

/// Whether the elements of node `i` that `p` names occur within its bounds,
/// each holding to it.
pub open spec fn particle_holds(s: SchemaDecl, p: ElementDecl, nodes: Seq<XmlNode>, i: int) -> bool {
    let ks = kids(nodes, i);
    &&& occurs_within(p, count_named(nodes, ks, p.name))
    &&& forall|q: int|
        0 <= q < ks.len() && nodes[#[trigger] ks[q] as int].name@ == p.name ==> holds_to(s, p, nodes, ks[q] as int)
}

/// Whether every element child of node `i` is one that a particle names.
pub open spec fn only_named_children(ps: Seq<ElementDecl>, nodes: Seq<XmlNode>, i: int) -> bool {
    let ks = kids(nodes, i);
    forall|m: int| 0 <= m < ks.len() ==> names_particle(ps, nodes[#[trigger] ks[m] as int].name@)
}

proof fn lemma_matches_clean(s: SchemaDecl, p: ElementDecl, nodes: Seq<XmlNode>, i: int, path: Seq<char>, m: int)
    requires
        0 <= i < nodes.len(),
        0 <= m <= kids(nodes, i).len(),
    ensures
        matches_upto(s, p, nodes, i, path, m).len() == 0 <==> forall|q: int|
            0 <= q < m && nodes[#[trigger] kids(nodes, i)[q] as int].name@ == p.name ==> holds_to(
                s,
                p,
                nodes,
                kids(nodes, i)[q] as int,
            ),
    decreases m,
{
    if m > 0 {
        let ks = kids(nodes, i);
        let c = ks[m - 1] as int;
        lemma_kids(nodes, i);
        lemma_matches_clean(s, p, nodes, i, path, m - 1);
        if nodes[c].name@ == p.name {
            lemma_element_count(
                s,
                p,
                nodes,
                c,
                child_path_text(path, p, count_named(nodes, ks.take(m), p.name)),
                Seq::empty(),
            );
        }
    }
}

proof fn lemma_all_upto_clean(s: SchemaDecl, ps: Seq<ElementDecl>, nodes: Seq<XmlNode>, i: int, path: Seq<char>, n: int)
    requires
        0 <= i < nodes.len(),
        0 <= n <= ps.len(),
    ensures
        all_upto(s, ps, nodes, i, path, n).len() == 0 <==> forall|k: int|
            0 <= k < n ==> particle_holds(s, #[trigger] ps[k], nodes, i),
    decreases n,
{
    if n > 0 {
        let p = ps[n - 1];
        lemma_all_upto_clean(s, ps, nodes, i, path, n - 1);
        lemma_matches_clean(s, p, nodes, i, path, kids(nodes, i).len() as int);
        if (forall|k: int| 0 <= k < n ==> particle_holds(s, #[trigger] ps[k], nodes, i)) {
            assert(particle_holds(s, ps[n - 1], nodes, i));
        }
    }
}

/// `all` admits its particles in any order and bounds each: it holds
/// exactly when each particle occurs within its bounds with every element it
/// names holding to it, and every element child is one a particle names —
/// counts and memberships, in which the order of the children plays no part.
pub proof fn law_all_admits_any_order(s: SchemaDecl, ps: Seq<ElementDecl>, nodes: Seq<XmlNode>, i: int, path: Seq<char>)
    requires
        0 <= i < nodes.len(),
    ensures
        all_issues(s, ps, nodes, i, path).len() == 0 <==> (forall|k: int|
            0 <= k < ps.len() ==> particle_holds(s, #[trigger] ps[k], nodes, i)) && only_named_children(ps, nodes, i),
{
    lemma_all_upto_clean(s, ps, nodes, i, path, ps.len() as int);
    lemma_unexpected_count(ps, nodes, kids(nodes, i), path, path);
}

/// A choice wants exactly one branch: with none of its particles present it
/// reports an `occurs` issue first, with more than one a `content` issue
/// first; it holds exactly when one particle is present, holding as an
/// `all` of that one, and no other element child is there.
pub proof fn law_choice_wants_exactly_one_branch(s: SchemaDecl, ps: Seq<ElementDecl>, nodes: Seq<XmlNode>, i: int, path: Seq<char>)
    requires
        0 <= i < nodes.len(),
    ensures
        ({
            let picked = chosen(ps, nodes, kids(nodes, i));
            let issues = choice_issues(s, ps, nodes, i, path);
            &&& picked.len() == 0 ==> issues[0].code == "occurs"@ && issues[0].path == Some(path)
            &&& picked.len() > 1 ==> issues[0].code == "content"@ && issues[0].path == Some(path)
            &&& issues.len() == 0 <==> picked.len() == 1 && all_issues(s, picked, nodes, i, path).len() == 0
                && only_named_children(ps, nodes, i)
        }),
{
    let picked = chosen(ps, nodes, kids(nodes, i));
    lemma_unexpected_count(ps, nodes, kids(nodes, i), path, path);
    if picked.len() == 1 {
        assert(seq![picked[0]] =~= picked);
    }
}


proof fn lemma_count_named_remove(nodes: Seq<XmlNode>, ids: Seq<usize>, j: int, name: Seq<char>)
    requires
        0 <= j < ids.len(),
    ensures
        count_named(nodes, ids, name) == count_named(nodes, ids.remove(j), name) + if nodes[ids[j] as int].name@
            == name {
            1nat
        } else {
            0nat
        },
    decreases ids.len(),
{
    if j == ids.len() - 1 {
        assert(ids.remove(j) =~= ids.drop_last());
    } else {
        lemma_count_named_remove(nodes, ids.drop_last(), j, name);
        assert(ids.remove(j).drop_last() =~= ids.drop_last().remove(j));
        assert(ids.remove(j).last() == ids.last());
    }
}

proof fn lemma_count_named_reordered(nodes: Seq<XmlNode>, a: Seq<usize>, b: Seq<usize>, name: Seq<char>)
    requires
        a.to_multiset() =~= b.to_multiset(),
    ensures
        count_named(nodes, a, name) == count_named(nodes, b, name),
    decreases a.len(),
{
    broadcast use vstd::seq_lib::group_to_multiset_ensures, vstd::multiset::group_multiset_axioms;

    if a.len() == 0 {
        assert(a.to_multiset().len() == b.to_multiset().len());
        assert(b.len() == 0);
    } else {
        let x = a.last();
        let rest = a.drop_last();
        assert(rest.push(x) =~= a);
        assert(a.contains(x)) by {
            assert(a[a.len() - 1] == x);
        }
        assert(a.to_multiset().count(x) == b.to_multiset().count(x));
        assert(b.contains(x));
        let j = choose|j: int| 0 <= j < b.len() && b[j] == x;
        lemma_count_named_remove(nodes, b, j, name);
        assert(rest.to_multiset() =~= b.remove(j).to_multiset()) by {
            assert(a.to_multiset() =~= rest.to_multiset().insert(x));
            assert(b.remove(j).to_multiset() =~= b.to_multiset().remove(x));
        }
        lemma_count_named_reordered(nodes, rest, b.remove(j), name);
    }
}

proof fn lemma_same_members(a: Seq<usize>, b: Seq<usize>, q: int)
    requires
        a.to_multiset() =~= b.to_multiset(),
        0 <= q < a.len(),
    ensures
        exists|r: int| 0 <= r < b.len() && b[r] == a[q],
{
    broadcast use vstd::seq_lib::group_to_multiset_ensures;

    assert(a.contains(a[q]));
    assert(a.to_multiset().count(a[q]) == b.to_multiset().count(a[q]));
    assert(b.contains(a[q]));
}

/// Reordering the element children of a node changes nothing of whether an
/// `all` holds there: two nodes whose element children are the same up to
/// order both hold to it or both do not.
pub proof fn law_all_ignores_child_order(s: SchemaDecl, ps: Seq<ElementDecl>, nodes: Seq<XmlNode>, i: int, j: int, path_i: Seq<char>, path_j: Seq<char>)
    requires
        0 <= i < nodes.len(),
        0 <= j < nodes.len(),
        kids(nodes, i).to_multiset() =~= kids(nodes, j).to_multiset(),
    ensures
        all_issues(s, ps, nodes, i, path_i).len() == 0 <==> all_issues(s, ps, nodes, j, path_j).len() == 0,
{
    law_all_admits_any_order(s, ps, nodes, i, path_i);
    law_all_admits_any_order(s, ps, nodes, j, path_j);
    let ki = kids(nodes, i);
    let kj = kids(nodes, j);
    assert forall|k: int| 0 <= k < ps.len() implies particle_holds(s, #[trigger] ps[k], nodes, i)
        == particle_holds(s, ps[k], nodes, j) by {
        let p = ps[k];
        lemma_count_named_reordered(nodes, ki, kj, p.name);
        if particle_holds(s, p, nodes, i) {
            assert forall|q: int| 0 <= q < kj.len() && nodes[#[trigger] kj[q] as int].name@ == p.name
                implies holds_to(s, p, nodes, kj[q] as int) by {
                lemma_same_members(kj, ki, q);
                let r = choose|r: int| 0 <= r < ki.len() && ki[r] == kj[q];
                assert(nodes[ki[r] as int].name@ == p.name);
            }
        }
        if particle_holds(s, p, nodes, j) {
            assert forall|q: int| 0 <= q < ki.len() && nodes[#[trigger] ki[q] as int].name@ == p.name
                implies holds_to(s, p, nodes, ki[q] as int) by {
                lemma_same_members(ki, kj, q);
                let r = choose|r: int| 0 <= r < kj.len() && kj[r] == ki[q];
                assert(nodes[kj[r] as int].name@ == p.name);
            }
        }
    }
    if only_named_children(ps, nodes, i) {
        assert forall|m: int| 0 <= m < kj.len() implies names_particle(ps, nodes[#[trigger] kj[m] as int].name@) by {
            lemma_same_members(kj, ki, m);
            let r = choose|r: int| 0 <= r < ki.len() && ki[r] == kj[m];
            assert(names_particle(ps, nodes[ki[r] as int].name@));
        }
    }
    if only_named_children(ps, nodes, j) {
        assert forall|m: int| 0 <= m < ki.len() implies names_particle(ps, nodes[#[trigger] ki[m] as int].name@) by {
            lemma_same_members(ki, kj, m);
            let r = choose|r: int| 0 <= r < kj.len() && kj[r] == ki[m];
            assert(names_particle(ps, nodes[kj[r] as int].name@));
        }
    }
    if (forall|k: int| 0 <= k < ps.len() ==> particle_holds(s, #[trigger] ps[k], nodes, i)) {
        assert forall|k: int| 0 <= k < ps.len() implies particle_holds(s, #[trigger] ps[k], nodes, j) by {
            assert(particle_holds(s, ps[k], nodes, i));
        }
    }
    if (forall|k: int| 0 <= k < ps.len() ==> particle_holds(s, #[trigger] ps[k], nodes, j)) {
        assert forall|k: int| 0 <= k < ps.len() implies particle_holds(s, #[trigger] ps[k], nodes, i) by {
            assert(particle_holds(s, ps[k], nodes, j));
        }
    }
}


/// An element whose named type is not declared has exactly one issue, a
/// `type` issue at its path; nothing else of it is checked.
pub proof fn law_undeclared_type_is_one_issue(s: SchemaDecl, d: ElementDecl, nodes: Seq<XmlNode>, i: int, path: Seq<char>)
    requires
        0 <= i < nodes.len(),
        d.kind matches KindDecl::Named(t) && !s.types.contains_key(t),
    ensures
        element_issues(s, d, nodes, i, path) == seq![
            issue("type"@, "type "@ + d.kind->Named_0 + " is not declared"@, path),
        ],
{
}

/// Where no child element is allowed, each element child, in document
/// order, has one `content` issue at `path/name`.
pub proof fn law_each_child_is_rejected(nodes: Seq<XmlNode>, ids: Seq<usize>, path: Seq<char>)
    ensures
        reject_issues(nodes, ids, path).len() == ids.len(),
        forall|k: int|
            0 <= k < ids.len() ==> #[trigger] reject_issues(nodes, ids, path)[k] == issue(
                "content"@,
                "no child element is allowed here"@,
                path + "/"@ + nodes[ids[k] as int].name@,
            ),
    decreases ids.len(),
{
    if ids.len() > 0 {
        law_each_child_is_rejected(nodes, ids.drop_last(), path);
        assert forall|k: int| 0 <= k < ids.len() - 1 implies ids.drop_last()[k] == ids[k] by {}
    }
}

/// A count within a particle's bounds has no `occurs` issue; below
/// `minOccurs` and above a bounded `maxOccurs` each give one, at
/// `path/name`; an unbounded particle is never too frequent.
pub proof fn law_occurs_bounds_each_particle(p: ElementDecl, count: nat, path: Seq<char>)
    ensures
        occurs_issues(p, count, path).len() == 0 <==> occurs_within(p, count),
        count < p.min ==> occurs_issues(p, count, path)[0].code == "occurs"@
            && occurs_issues(p, count, path)[0].path == Some(path + "/"@ + p.name),
        p.max is None ==> occurs_issues(p, count, path).len() == if count < p.min {
            1int
        } else {
            0int
        },
        p.max matches Some(m) && count > m ==> occurs_issues(p, count, path).last().code == "occurs"@
            && occurs_issues(p, count, path).last().path == Some(path + "/"@ + p.name),
{
}

/// What a choice reports, case by case: with no particle present, one
/// `occurs` issue; with several, one `content` issue and no particle
/// checked; with one, the issues of an `all` of that one; then, in each
/// case, one `content` issue for each element child that no particle names.
pub proof fn law_choice_reports(s: SchemaDecl, ps: Seq<ElementDecl>, nodes: Seq<XmlNode>, i: int, path: Seq<char>)
    requires
        0 <= i < nodes.len(),
    ensures
        ({
            let picked = chosen(ps, nodes, kids(nodes, i));
            let rest = unexpected_issues(ps, nodes, kids(nodes, i), path);
            let issues = choice_issues(s, ps, nodes, i, path);
            &&& picked.len() == 0 ==> issues == seq![
                issue("occurs"@, "one of "@ + joined_names(ps) + " is required"@, path),
            ] + rest
            &&& picked.len() == 1 ==> issues == all_issues(s, picked, nodes, i, path) + rest
            &&& picked.len() > 1 ==> issues == seq![
                issue("content"@, "only one of "@ + joined_names(picked) + " may appear"@, path),
            ] + rest
        }),
{
    let picked = chosen(ps, nodes, kids(nodes, i));
    if picked.len() == 1 {
        assert(seq![picked[0]] =~= picked);
    }
}


// ---------------------------------------------------------------------------
// Reordering the children of an `all`

/// The elements among `ids` named `name`, in their order.
pub open spec fn named(nodes: Seq<XmlNode>, ids: Seq<usize>, name: Seq<char>) -> Seq<usize>
    decreases ids.len(),
{
    if ids.len() == 0 {
        Seq::empty()
    } else {
        let rest = named(nodes, ids.drop_last(), name);
        if nodes[ids.last() as int].name@ == name {
            rest.push(ids.last())
        } else {
            rest
        }
    }
}

/// The issues of the elements `cs`, each held to `p` at its ordinal.
pub open spec fn held_each(s: SchemaDecl, p: ElementDecl, nodes: Seq<XmlNode>, cs: Seq<usize>, path: Seq<char>) -> Seq<Issue>
    decreases cs.len(),
{
    if cs.len() == 0 {
        Seq::empty()
    } else {
        held_each(s, p, nodes, cs.drop_last(), path) + element_issues(
            s,
            p,
            nodes,
            cs.last() as int,
            child_path_text(path, p, cs.len()),
        )
    }
}

proof fn lemma_named_count(nodes: Seq<XmlNode>, ids: Seq<usize>, name: Seq<char>)
    ensures
        count_named(nodes, ids, name) == named(nodes, ids, name).len(),
    decreases ids.len(),
{
    if ids.len() > 0 {
        lemma_named_count(nodes, ids.drop_last(), name);
    }
}

proof fn lemma_matches_named(s: SchemaDecl, p: ElementDecl, nodes: Seq<XmlNode>, i: int, path: Seq<char>, m: int)
    requires
        0 <= i < nodes.len(),
        0 <= m <= kids(nodes, i).len(),
    ensures
        matches_upto(s, p, nodes, i, path, m) == held_each(s, p, nodes, named(nodes, kids(nodes, i).take(m), p.name), path),
    decreases m,
{
    let ks = kids(nodes, i);
    if m == 0 {
        assert(ks.take(0) =~= Seq::<usize>::empty());
    } else {
        lemma_matches_named(s, p, nodes, i, path, m - 1);
        assert(ks.take(m).drop_last() =~= ks.take(m - 1));
        assert(ks.take(m).last() == ks[m - 1]);
        lemma_named_count(nodes, ks.take(m), p.name);
        let before = named(nodes, ks.take(m - 1), p.name);
        assert(before.push(ks[m - 1]).drop_last() =~= before);
    }
}

proof fn lemma_all_upto_same(s: SchemaDecl, ps: Seq<ElementDecl>, nodes: Seq<XmlNode>, i: int, j: int, path: Seq<char>, n: int)
    requires
        0 <= i < nodes.len(),
        0 <= j < nodes.len(),
        0 <= n <= ps.len(),
        forall|name: Seq<char>| #[trigger] named(nodes, kids(nodes, i), name) == named(nodes, kids(nodes, j), name),
    ensures
        all_upto(s, ps, nodes, i, path, n) == all_upto(s, ps, nodes, j, path, n),
    decreases n,
{
    if n > 0 {
        let p = ps[n - 1];
        let ki = kids(nodes, i);
        let kj = kids(nodes, j);
        lemma_all_upto_same(s, ps, nodes, i, j, path, n - 1);
        lemma_matches_named(s, p, nodes, i, path, ki.len() as int);
        lemma_matches_named(s, p, nodes, j, path, kj.len() as int);
        assert(ki.take(ki.len() as int) =~= ki);
        assert(kj.take(kj.len() as int) =~= kj);
        lemma_named_count(nodes, ki, p.name);
        lemma_named_count(nodes, kj, p.name);
        assert(named(nodes, ki, p.name) == named(nodes, kj, p.name));
    }
}

proof fn lemma_unexpected_remove(ps: Seq<ElementDecl>, nodes: Seq<XmlNode>, ids: Seq<usize>, j: int, path: Seq<char>)
    requires
        0 <= j < ids.len(),
    ensures
        unexpected_issues(ps, nodes, ids, path).to_multiset() =~= ({
            let rest = unexpected_issues(ps, nodes, ids.remove(j), path).to_multiset();
            let name = nodes[ids[j] as int].name@;
            if names_particle(ps, name) {
                rest
            } else {
                rest.insert(issue("content"@, "element is not expected here"@, path + "/"@ + name))
            }
        }),
    decreases ids.len(),
{
    broadcast use vstd::seq_lib::group_to_multiset_ensures, vstd::multiset::group_multiset_axioms;

    if j == ids.len() - 1 {
        assert(ids.remove(j) =~= ids.drop_last());
    } else {
        lemma_unexpected_remove(ps, nodes, ids.drop_last(), j, path);
        assert(ids.remove(j).drop_last() =~= ids.drop_last().remove(j));
        assert(ids.remove(j).last() == ids.last());
        assert(ids.drop_last()[j] == ids[j]);
    }
}

proof fn lemma_unexpected_reordered(ps: Seq<ElementDecl>, nodes: Seq<XmlNode>, a: Seq<usize>, b: Seq<usize>, path: Seq<char>)
    requires
        a.to_multiset() =~= b.to_multiset(),
    ensures
        unexpected_issues(ps, nodes, a, path).to_multiset() =~= unexpected_issues(ps, nodes, b, path).to_multiset(),
    decreases a.len(),
{
    broadcast use vstd::seq_lib::group_to_multiset_ensures, vstd::multiset::group_multiset_axioms;

    if a.len() == 0 {
        assert(a.to_multiset().len() == b.to_multiset().len());
        assert(b =~= Seq::<usize>::empty());
    } else {
        let x = a.last();
        let k = a.len() - 1;
        assert(a.contains(x)) by {
            assert(a[k] == x);
        }
        assert(a.to_multiset().count(x) == b.to_multiset().count(x));
        assert(b.contains(x));
        let j = choose|j: int| 0 <= j < b.len() && b[j] == x;
        assert(a.remove(k) =~= a.drop_last());
        assert(a.remove(k).to_multiset() =~= b.remove(j).to_multiset()) by {
            assert(a.remove(k).to_multiset() =~= a.to_multiset().remove(x));
            assert(b.remove(j).to_multiset() =~= b.to_multiset().remove(x));
        }
        lemma_unexpected_reordered(ps, nodes, a.remove(k), b.remove(j), path);
        lemma_unexpected_remove(ps, nodes, a, k, path);
        lemma_unexpected_remove(ps, nodes, b, j, path);
    }
}

/// Reordering the element children of an `all`, so long as elements of the
/// same name keep their order among themselves, changes none of its issues:
/// the same issues are reported, only perhaps in another order.
pub proof fn law_all_reordering_keeps_issues(s: SchemaDecl, ps: Seq<ElementDecl>, nodes: Seq<XmlNode>, i: int, j: int, path: Seq<char>)
    requires
        0 <= i < nodes.len(),
        0 <= j < nodes.len(),
        kids(nodes, i).to_multiset() =~= kids(nodes, j).to_multiset(),
        forall|name: Seq<char>| #[trigger] named(nodes, kids(nodes, i), name) == named(nodes, kids(nodes, j), name),
    ensures
        all_issues(s, ps, nodes, i, path).to_multiset() =~= all_issues(s, ps, nodes, j, path).to_multiset(),
{
    broadcast use vstd::multiset::group_multiset_axioms;

    lemma_all_upto_same(s, ps, nodes, i, j, path, ps.len() as int);
    lemma_unexpected_reordered(ps, nodes, kids(nodes, i), kids(nodes, j), path);
    let up = all_upto(s, ps, nodes, i, path, ps.len() as int);
    vstd::seq_lib::lemma_multiset_commutative(up, unexpected_issues(ps, nodes, kids(nodes, i), path));
    vstd::seq_lib::lemma_multiset_commutative(up, unexpected_issues(ps, nodes, kids(nodes, j), path));
}


// ---------------------------------------------------------------------------
// What a value, the attributes and a sequence hold to

/// The names of the checked built-ins are distinct.
proof fn lemma_checked_names_distinct()
    ensures
        "boolean"@ != "integer"@,
        "boolean"@ != "int"@,
        "integer"@ != "int"@,
        "boolean"@ != "long"@,
        "integer"@ != "long"@,
        "int"@ != "long"@,
        "boolean"@ != "short"@,
        "integer"@ != "short"@,
        "int"@ != "short"@,
        "long"@ != "short"@,
        "boolean"@ != "byte"@,
        "integer"@ != "byte"@,
        "int"@ != "byte"@,
        "long"@ != "byte"@,
        "short"@ != "byte"@,
        "boolean"@ != "unsignedLong"@,
        "integer"@ != "unsignedLong"@,
        "int"@ != "unsignedLong"@,
        "long"@ != "unsignedLong"@,
        "short"@ != "unsignedLong"@,
        "byte"@ != "unsignedLong"@,
        "boolean"@ != "unsignedInt"@,
        "integer"@ != "unsignedInt"@,
        "int"@ != "unsignedInt"@,
        "long"@ != "unsignedInt"@,
        "short"@ != "unsignedInt"@,
        "byte"@ != "unsignedInt"@,
        "unsignedLong"@ != "unsignedInt"@,
        "boolean"@ != "unsignedShort"@,
        "integer"@ != "unsignedShort"@,
        "int"@ != "unsignedShort"@,
        "long"@ != "unsignedShort"@,
        "short"@ != "unsignedShort"@,
        "byte"@ != "unsignedShort"@,
        "unsignedLong"@ != "unsignedShort"@,
        "unsignedInt"@ != "unsignedShort"@,
        "boolean"@ != "unsignedByte"@,
        "integer"@ != "unsignedByte"@,
        "int"@ != "unsignedByte"@,
        "long"@ != "unsignedByte"@,
        "short"@ != "unsignedByte"@,
        "byte"@ != "unsignedByte"@,
        "unsignedLong"@ != "unsignedByte"@,
        "unsignedInt"@ != "unsignedByte"@,
        "unsignedShort"@ != "unsignedByte"@,
        "boolean"@ != "nonNegativeInteger"@,
        "integer"@ != "nonNegativeInteger"@,
        "int"@ != "nonNegativeInteger"@,
        "long"@ != "nonNegativeInteger"@,
        "short"@ != "nonNegativeInteger"@,
        "byte"@ != "nonNegativeInteger"@,
        "unsignedLong"@ != "nonNegativeInteger"@,
        "unsignedInt"@ != "nonNegativeInteger"@,
        "unsignedShort"@ != "nonNegativeInteger"@,
        "unsignedByte"@ != "nonNegativeInteger"@,
        "boolean"@ != "positiveInteger"@,
        "integer"@ != "positiveInteger"@,
        "int"@ != "positiveInteger"@,
        "long"@ != "positiveInteger"@,
        "short"@ != "positiveInteger"@,
        "byte"@ != "positiveInteger"@,
        "unsignedLong"@ != "positiveInteger"@,
        "unsignedInt"@ != "positiveInteger"@,
        "unsignedShort"@ != "positiveInteger"@,
        "unsignedByte"@ != "positiveInteger"@,
        "nonNegativeInteger"@ != "positiveInteger"@,
        "boolean"@ != "negativeInteger"@,
        "integer"@ != "negativeInteger"@,
        "int"@ != "negativeInteger"@,
        "long"@ != "negativeInteger"@,
        "short"@ != "negativeInteger"@,
        "byte"@ != "negativeInteger"@,
        "unsignedLong"@ != "negativeInteger"@,
        "unsignedInt"@ != "negativeInteger"@,
        "unsignedShort"@ != "negativeInteger"@,
        "unsignedByte"@ != "negativeInteger"@,
        "nonNegativeInteger"@ != "negativeInteger"@,
        "positiveInteger"@ != "negativeInteger"@,
        "boolean"@ != "nonPositiveInteger"@,
        "integer"@ != "nonPositiveInteger"@,
        "int"@ != "nonPositiveInteger"@,
        "long"@ != "nonPositiveInteger"@,
        "short"@ != "nonPositiveInteger"@,
        "byte"@ != "nonPositiveInteger"@,
        "unsignedLong"@ != "nonPositiveInteger"@,
        "unsignedInt"@ != "nonPositiveInteger"@,
        "unsignedShort"@ != "nonPositiveInteger"@,
        "unsignedByte"@ != "nonPositiveInteger"@,
        "nonNegativeInteger"@ != "nonPositiveInteger"@,
        "positiveInteger"@ != "nonPositiveInteger"@,
        "negativeInteger"@ != "nonPositiveInteger"@,
        "boolean"@ != "decimal"@,
        "integer"@ != "decimal"@,
        "int"@ != "decimal"@,
        "long"@ != "decimal"@,
        "short"@ != "decimal"@,
        "byte"@ != "decimal"@,
        "unsignedLong"@ != "decimal"@,
        "unsignedInt"@ != "decimal"@,
        "unsignedShort"@ != "decimal"@,
        "unsignedByte"@ != "decimal"@,
        "nonNegativeInteger"@ != "decimal"@,
        "positiveInteger"@ != "decimal"@,
        "negativeInteger"@ != "decimal"@,
        "nonPositiveInteger"@ != "decimal"@,
        "boolean"@ != "double"@,
        "integer"@ != "double"@,
        "int"@ != "double"@,
        "long"@ != "double"@,
        "short"@ != "double"@,
        "byte"@ != "double"@,
        "unsignedLong"@ != "double"@,
        "unsignedInt"@ != "double"@,
        "unsignedShort"@ != "double"@,
        "unsignedByte"@ != "double"@,
        "nonNegativeInteger"@ != "double"@,
        "positiveInteger"@ != "double"@,
        "negativeInteger"@ != "double"@,
        "nonPositiveInteger"@ != "double"@,
        "decimal"@ != "double"@,
        "boolean"@ != "float"@,
        "integer"@ != "float"@,
        "int"@ != "float"@,
        "long"@ != "float"@,
        "short"@ != "float"@,
        "byte"@ != "float"@,
        "unsignedLong"@ != "float"@,
        "unsignedInt"@ != "float"@,
        "unsignedShort"@ != "float"@,
        "unsignedByte"@ != "float"@,
        "nonNegativeInteger"@ != "float"@,
        "positiveInteger"@ != "float"@,
        "negativeInteger"@ != "float"@,
        "nonPositiveInteger"@ != "float"@,
        "decimal"@ != "float"@,
        "double"@ != "float"@,
        "boolean"@ != "date"@,
        "integer"@ != "date"@,
        "int"@ != "date"@,
        "long"@ != "date"@,
        "short"@ != "date"@,
        "byte"@ != "date"@,
        "unsignedLong"@ != "date"@,
        "unsignedInt"@ != "date"@,
        "unsignedShort"@ != "date"@,
        "unsignedByte"@ != "date"@,
        "nonNegativeInteger"@ != "date"@,
        "positiveInteger"@ != "date"@,
        "negativeInteger"@ != "date"@,
        "nonPositiveInteger"@ != "date"@,
        "decimal"@ != "date"@,
        "double"@ != "date"@,
        "float"@ != "date"@,
        "boolean"@ != "dateTime"@,
        "integer"@ != "dateTime"@,
        "int"@ != "dateTime"@,
        "long"@ != "dateTime"@,
        "short"@ != "dateTime"@,
        "byte"@ != "dateTime"@,
        "unsignedLong"@ != "dateTime"@,
        "unsignedInt"@ != "dateTime"@,
        "unsignedShort"@ != "dateTime"@,
        "unsignedByte"@ != "dateTime"@,
        "nonNegativeInteger"@ != "dateTime"@,
        "positiveInteger"@ != "dateTime"@,
        "negativeInteger"@ != "dateTime"@,
        "nonPositiveInteger"@ != "dateTime"@,
        "decimal"@ != "dateTime"@,
        "double"@ != "dateTime"@,
        "float"@ != "dateTime"@,
        "date"@ != "dateTime"@,
        "boolean"@ != "time"@,
        "integer"@ != "time"@,
        "int"@ != "time"@,
        "long"@ != "time"@,
        "short"@ != "time"@,
        "byte"@ != "time"@,
        "unsignedLong"@ != "time"@,
        "unsignedInt"@ != "time"@,
        "unsignedShort"@ != "time"@,
        "unsignedByte"@ != "time"@,
        "nonNegativeInteger"@ != "time"@,
        "positiveInteger"@ != "time"@,
        "negativeInteger"@ != "time"@,
        "nonPositiveInteger"@ != "time"@,
        "decimal"@ != "time"@,
        "double"@ != "time"@,
        "float"@ != "time"@,
        "date"@ != "time"@,
        "dateTime"@ != "time"@,
{
    reveal_strlit("boolean");
    reveal_strlit("integer");
    reveal_strlit("int");
    reveal_strlit("long");
    reveal_strlit("short");
    reveal_strlit("byte");
    reveal_strlit("unsignedLong");
    reveal_strlit("unsignedInt");
    reveal_strlit("unsignedShort");
    reveal_strlit("unsignedByte");
    reveal_strlit("nonNegativeInteger");
    reveal_strlit("positiveInteger");
    reveal_strlit("negativeInteger");
    reveal_strlit("nonPositiveInteger");
    reveal_strlit("decimal");
    reveal_strlit("double");
    reveal_strlit("float");
    reveal_strlit("date");
    reveal_strlit("dateTime");
    reveal_strlit("time");
    assert("boolean"@[0] != "integer"@[0]);
    assert("boolean"@.len() != "int"@.len());
    assert("integer"@.len() != "int"@.len());
    assert("boolean"@.len() != "long"@.len());
    assert("integer"@.len() != "long"@.len());
    assert("int"@.len() != "long"@.len());
    assert("boolean"@.len() != "short"@.len());
    assert("integer"@.len() != "short"@.len());
    assert("int"@.len() != "short"@.len());
    assert("long"@.len() != "short"@.len());
    assert("boolean"@.len() != "byte"@.len());
    assert("integer"@.len() != "byte"@.len());
    assert("int"@.len() != "byte"@.len());
    assert("long"@[0] != "byte"@[0]);
    assert("short"@.len() != "byte"@.len());
    assert("boolean"@.len() != "unsignedLong"@.len());
    assert("integer"@.len() != "unsignedLong"@.len());
    assert("int"@.len() != "unsignedLong"@.len());
    assert("long"@.len() != "unsignedLong"@.len());
    assert("short"@.len() != "unsignedLong"@.len());
    assert("byte"@.len() != "unsignedLong"@.len());
    assert("boolean"@.len() != "unsignedInt"@.len());
    assert("integer"@.len() != "unsignedInt"@.len());
    assert("int"@.len() != "unsignedInt"@.len());
    assert("long"@.len() != "unsignedInt"@.len());
    assert("short"@.len() != "unsignedInt"@.len());
    assert("byte"@.len() != "unsignedInt"@.len());
    assert("unsignedLong"@.len() != "unsignedInt"@.len());
    assert("boolean"@.len() != "unsignedShort"@.len());
    assert("integer"@.len() != "unsignedShort"@.len());
    assert("int"@.len() != "unsignedShort"@.len());
    assert("long"@.len() != "unsignedShort"@.len());
    assert("short"@.len() != "unsignedShort"@.len());
    assert("byte"@.len() != "unsignedShort"@.len());
    assert("unsignedLong"@.len() != "unsignedShort"@.len());
    assert("unsignedInt"@.len() != "unsignedShort"@.len());
    assert("boolean"@.len() != "unsignedByte"@.len());
    assert("integer"@.len() != "unsignedByte"@.len());
    assert("int"@.len() != "unsignedByte"@.len());
    assert("long"@.len() != "unsignedByte"@.len());
    assert("short"@.len() != "unsignedByte"@.len());
    assert("byte"@.len() != "unsignedByte"@.len());
    assert("unsignedLong"@[8] != "unsignedByte"@[8]);
    assert("unsignedInt"@.len() != "unsignedByte"@.len());
    assert("unsignedShort"@.len() != "unsignedByte"@.len());
    assert("boolean"@.len() != "nonNegativeInteger"@.len());
    assert("integer"@.len() != "nonNegativeInteger"@.len());
    assert("int"@.len() != "nonNegativeInteger"@.len());
    assert("long"@.len() != "nonNegativeInteger"@.len());
    assert("short"@.len() != "nonNegativeInteger"@.len());
    assert("byte"@.len() != "nonNegativeInteger"@.len());
    assert("unsignedLong"@.len() != "nonNegativeInteger"@.len());
    assert("unsignedInt"@.len() != "nonNegativeInteger"@.len());
    assert("unsignedShort"@.len() != "nonNegativeInteger"@.len());
    assert("unsignedByte"@.len() != "nonNegativeInteger"@.len());
    assert("boolean"@.len() != "positiveInteger"@.len());
    assert("integer"@.len() != "positiveInteger"@.len());
    assert("int"@.len() != "positiveInteger"@.len());
    assert("long"@.len() != "positiveInteger"@.len());
    assert("short"@.len() != "positiveInteger"@.len());
    assert("byte"@.len() != "positiveInteger"@.len());
    assert("unsignedLong"@.len() != "positiveInteger"@.len());
    assert("unsignedInt"@.len() != "positiveInteger"@.len());
    assert("unsignedShort"@.len() != "positiveInteger"@.len());
    assert("unsignedByte"@.len() != "positiveInteger"@.len());
    assert("nonNegativeInteger"@.len() != "positiveInteger"@.len());
    assert("boolean"@.len() != "negativeInteger"@.len());
    assert("integer"@.len() != "negativeInteger"@.len());
    assert("int"@.len() != "negativeInteger"@.len());
    assert("long"@.len() != "negativeInteger"@.len());
    assert("short"@.len() != "negativeInteger"@.len());
    assert("byte"@.len() != "negativeInteger"@.len());
    assert("unsignedLong"@.len() != "negativeInteger"@.len());
    assert("unsignedInt"@.len() != "negativeInteger"@.len());
    assert("unsignedShort"@.len() != "negativeInteger"@.len());
    assert("unsignedByte"@.len() != "negativeInteger"@.len());
    assert("nonNegativeInteger"@.len() != "negativeInteger"@.len());
    assert("positiveInteger"@[0] != "negativeInteger"@[0]);
    assert("boolean"@.len() != "nonPositiveInteger"@.len());
    assert("integer"@.len() != "nonPositiveInteger"@.len());
    assert("int"@.len() != "nonPositiveInteger"@.len());
    assert("long"@.len() != "nonPositiveInteger"@.len());
    assert("short"@.len() != "nonPositiveInteger"@.len());
    assert("byte"@.len() != "nonPositiveInteger"@.len());
    assert("unsignedLong"@.len() != "nonPositiveInteger"@.len());
    assert("unsignedInt"@.len() != "nonPositiveInteger"@.len());
    assert("unsignedShort"@.len() != "nonPositiveInteger"@.len());
    assert("unsignedByte"@.len() != "nonPositiveInteger"@.len());
    assert("nonNegativeInteger"@[3] != "nonPositiveInteger"@[3]);
    assert("positiveInteger"@.len() != "nonPositiveInteger"@.len());
    assert("negativeInteger"@.len() != "nonPositiveInteger"@.len());
    assert("boolean"@[0] != "decimal"@[0]);
    assert("integer"@[0] != "decimal"@[0]);
    assert("int"@.len() != "decimal"@.len());
    assert("long"@.len() != "decimal"@.len());
    assert("short"@.len() != "decimal"@.len());
    assert("byte"@.len() != "decimal"@.len());
    assert("unsignedLong"@.len() != "decimal"@.len());
    assert("unsignedInt"@.len() != "decimal"@.len());
    assert("unsignedShort"@.len() != "decimal"@.len());
    assert("unsignedByte"@.len() != "decimal"@.len());
    assert("nonNegativeInteger"@.len() != "decimal"@.len());
    assert("positiveInteger"@.len() != "decimal"@.len());
    assert("negativeInteger"@.len() != "decimal"@.len());
    assert("nonPositiveInteger"@.len() != "decimal"@.len());
    assert("boolean"@.len() != "double"@.len());
    assert("integer"@.len() != "double"@.len());
    assert("int"@.len() != "double"@.len());
    assert("long"@.len() != "double"@.len());
    assert("short"@.len() != "double"@.len());
    assert("byte"@.len() != "double"@.len());
    assert("unsignedLong"@.len() != "double"@.len());
    assert("unsignedInt"@.len() != "double"@.len());
    assert("unsignedShort"@.len() != "double"@.len());
    assert("unsignedByte"@.len() != "double"@.len());
    assert("nonNegativeInteger"@.len() != "double"@.len());
    assert("positiveInteger"@.len() != "double"@.len());
    assert("negativeInteger"@.len() != "double"@.len());
    assert("nonPositiveInteger"@.len() != "double"@.len());
    assert("decimal"@.len() != "double"@.len());
    assert("boolean"@.len() != "float"@.len());
    assert("integer"@.len() != "float"@.len());
    assert("int"@.len() != "float"@.len());
    assert("long"@.len() != "float"@.len());
    assert("short"@[0] != "float"@[0]);
    assert("byte"@.len() != "float"@.len());
    assert("unsignedLong"@.len() != "float"@.len());
    assert("unsignedInt"@.len() != "float"@.len());
    assert("unsignedShort"@.len() != "float"@.len());
    assert("unsignedByte"@.len() != "float"@.len());
    assert("nonNegativeInteger"@.len() != "float"@.len());
    assert("positiveInteger"@.len() != "float"@.len());
    assert("negativeInteger"@.len() != "float"@.len());
    assert("nonPositiveInteger"@.len() != "float"@.len());
    assert("decimal"@.len() != "float"@.len());
    assert("double"@.len() != "float"@.len());
    assert("boolean"@.len() != "date"@.len());
    assert("integer"@.len() != "date"@.len());
    assert("int"@.len() != "date"@.len());
    assert("long"@[0] != "date"@[0]);
    assert("short"@.len() != "date"@.len());
    assert("byte"@[0] != "date"@[0]);
    assert("unsignedLong"@.len() != "date"@.len());
    assert("unsignedInt"@.len() != "date"@.len());
    assert("unsignedShort"@.len() != "date"@.len());
    assert("unsignedByte"@.len() != "date"@.len());
    assert("nonNegativeInteger"@.len() != "date"@.len());
    assert("positiveInteger"@.len() != "date"@.len());
    assert("negativeInteger"@.len() != "date"@.len());
    assert("nonPositiveInteger"@.len() != "date"@.len());
    assert("decimal"@.len() != "date"@.len());
    assert("double"@.len() != "date"@.len());
    assert("float"@.len() != "date"@.len());
    assert("boolean"@.len() != "dateTime"@.len());
    assert("integer"@.len() != "dateTime"@.len());
    assert("int"@.len() != "dateTime"@.len());
    assert("long"@.len() != "dateTime"@.len());
    assert("short"@.len() != "dateTime"@.len());
    assert("byte"@.len() != "dateTime"@.len());
    assert("unsignedLong"@.len() != "dateTime"@.len());
    assert("unsignedInt"@.len() != "dateTime"@.len());
    assert("unsignedShort"@.len() != "dateTime"@.len());
    assert("unsignedByte"@.len() != "dateTime"@.len());
    assert("nonNegativeInteger"@.len() != "dateTime"@.len());
    assert("positiveInteger"@.len() != "dateTime"@.len());
    assert("negativeInteger"@.len() != "dateTime"@.len());
    assert("nonPositiveInteger"@.len() != "dateTime"@.len());
    assert("decimal"@.len() != "dateTime"@.len());
    assert("double"@.len() != "dateTime"@.len());
    assert("float"@.len() != "dateTime"@.len());
    assert("date"@.len() != "dateTime"@.len());
    assert("boolean"@.len() != "time"@.len());
    assert("integer"@.len() != "time"@.len());
    assert("int"@.len() != "time"@.len());
    assert("long"@[0] != "time"@[0]);
    assert("short"@.len() != "time"@.len());
    assert("byte"@[0] != "time"@[0]);
    assert("unsignedLong"@.len() != "time"@.len());
    assert("unsignedInt"@.len() != "time"@.len());
    assert("unsignedShort"@.len() != "time"@.len());
    assert("unsignedByte"@.len() != "time"@.len());
    assert("nonNegativeInteger"@.len() != "time"@.len());
    assert("positiveInteger"@.len() != "time"@.len());
    assert("negativeInteger"@.len() != "time"@.len());
    assert("nonPositiveInteger"@.len() != "time"@.len());
    assert("decimal"@.len() != "time"@.len());
    assert("double"@.len() != "time"@.len());
    assert("float"@.len() != "time"@.len());
    assert("date"@[0] != "time"@[0]);
    assert("dateTime"@.len() != "time"@.len());
}

/// Each built-in that this contract checks holds exactly its lexical form,
/// read from the value without surrounding white space; a value that fails
/// has one `value` issue, at the value's own path.
pub proof fn law_builtin_lexical_forms(builtin: Seq<char>, text: Seq<char>, path: Seq<char>)
    ensures
        ({
            let t = trimmed(text);
            let holds = value_issues(builtin, text, path).len() == 0;
            &&& value_issues(builtin, text, path).len() <= 1
            &&& !holds ==> value_issues(builtin, text, path)[0].code == "value"@
                && value_issues(builtin, text, path)[0].path == Some(path)
            &&& builtin == "boolean"@ ==> (holds <==> (t == "true"@ || t == "false"@ || t == "1"@ || t == "0"@))
            &&& (builtin == "integer"@ || builtin == "int"@ || builtin == "long"@ || builtin == "short"@
                || builtin == "byte"@) ==> (holds <==> signed_value(t) is Some)
            &&& (builtin == "unsignedLong"@ || builtin == "unsignedInt"@ || builtin == "unsignedShort"@
                || builtin == "unsignedByte"@ || builtin == "nonNegativeInteger"@) ==> (holds
                <==> unsigned_at_most(t, u64::MAX as int) is Some)
            &&& builtin == "positiveInteger"@ ==> (holds <==> (unsigned_at_most(t, u64::MAX as int) matches Some(
                n,
            ) && n > 0))
            &&& builtin == "negativeInteger"@ ==> (holds <==> (signed_value(t) matches Some(n) && n < 0))
            &&& builtin == "nonPositiveInteger"@ ==> (holds <==> (signed_value(t) matches Some(n) && n <= 0))
            &&& builtin == "decimal"@ ==> (holds <==> is_float_text(t) && !same_ignoring_ascii_case(t, "nan"@))
            &&& (builtin == "double"@ || builtin == "float"@) ==> (holds <==> (is_float_text(t) || t == "INF"@ || t
                == "-INF"@ || t == "NaN"@))
            &&& builtin == "date"@ ==> (holds <==> is_date_text(t))
            &&& builtin == "dateTime"@ ==> (holds <==> is_date_time_text(t))
            &&& builtin == "time"@ ==> (holds <==> is_time_text(t))
        }),
{
    lemma_checked_names_distinct();
}

proof fn lemma_declared_attributes_clean(nodes: Seq<XmlNode>, i: int, declared: Seq<AttributeDecl>, path: Seq<char>)
    ensures
        declared_attribute_issues(nodes, i, declared, path).len() == 0 <==> forall|k: int|
            0 <= k < declared.len() ==> match attribute_value(nodes[i].attributes@, (#[trigger] declared[k]).name) {
                Some(t) => value_issues(declared[k].builtin, t, path + "/@"@ + declared[k].name).len() == 0,
                None => !declared[k].required,
            },
    decreases declared.len(),
{
    if declared.len() > 0 {
        let rest = declared.drop_last();
        lemma_declared_attributes_clean(nodes, i, rest, path);
        assert forall|k: int| 0 <= k < rest.len() implies rest[k] == declared[k] by {}
        let k = declared.len() - 1;
        assert(declared[k] == declared.last());
    }
}

proof fn lemma_undeclared_clean(present: Seq<XmlAttribute>, declared: Seq<AttributeDecl>, path: Seq<char>)
    ensures
        undeclared_attribute_issues(present, declared, path).len() == 0 <==> forall|q: int|
            0 <= q < present.len() && (#[trigger] present[q]).1 is None ==> declares(declared, present[q].0@),
    decreases present.len(),
{
    if present.len() > 0 {
        let rest = present.drop_last();
        lemma_undeclared_clean(rest, declared, path);
        assert forall|q: int| 0 <= q < rest.len() implies rest[q] == present[q] by {}
        let q = present.len() - 1;
        assert(present[q] == present.last());
    }
}

/// An element's attributes hold exactly when every declared attribute that
/// is present holds to its built-in, required or not, every required one is
/// present, and every attribute present outside any namespace is declared.
pub proof fn law_attributes_hold_exactly(nodes: Seq<XmlNode>, i: int, ct: ComplexTypeDecl, path: Seq<char>)
    ensures
        attribute_issues(nodes, i, ct, path).len() == 0 <==> ({
            &&& forall|k: int|
                0 <= k < ct.attributes.len() ==> match attribute_value(
                    nodes[i].attributes@,
                    (#[trigger] ct.attributes[k]).name,
                ) {
                    Some(t) => value_issues(ct.attributes[k].builtin, t, path + "/@"@ + ct.attributes[k].name).len()
                        == 0,
                    None => !ct.attributes[k].required,
                }
            &&& forall|q: int|
                0 <= q < nodes[i].attributes@.len() && (#[trigger] nodes[i].attributes@[q]).1 is None
                    ==> declares(ct.attributes, nodes[i].attributes@[q].0@)
        }),
{
    lemma_declared_attributes_clean(nodes, i, ct.attributes, path);
    lemma_undeclared_clean(nodes[i].attributes@, ct.attributes, path);
}

proof fn lemma_run_count_names(nodes: Seq<XmlNode>, ks: Seq<usize>, from: int, name: Seq<char>)
    requires
        0 <= from,
    ensures
        from <= ks.len() ==> from + run_count(nodes, ks, from, name) <= ks.len(),
        forall|q: int| from <= q < from + run_count(nodes, ks, from, name) ==> nodes[#[trigger] ks[q] as int].name@ == name,
    decreases ks.len() - from,
{
    if from < ks.len() && nodes[ks[from] as int].name@ == name {
        lemma_run_count_names(nodes, ks, from + 1, name);
    }
}

proof fn lemma_run_clean(s: SchemaDecl, p: ElementDecl, nodes: Seq<XmlNode>, i: int, path: Seq<char>, next: int, n: int)
    requires
        0 <= i < nodes.len(),
        0 <= next,
        0 <= n,
        next + n <= kids(nodes, i).len(),
    ensures
        run_issues(s, p, nodes, i, path, next, n).len() == 0 ==> forall|q: int|
            next <= q < next + n ==> holds_to(s, p, nodes, #[trigger] kids(nodes, i)[q] as int),
    decreases n,
{
    if n > 0 {
        lemma_kids(nodes, i);
        lemma_run_clean(s, p, nodes, i, path, next, n - 1);
        let c = kids(nodes, i)[next + n - 1] as int;
        lemma_element_count(s, p, nodes, c, child_path_text(path, p, n as nat), Seq::empty());
    }
}

proof fn lemma_sequence_clean(s: SchemaDecl, ps: Seq<ElementDecl>, nodes: Seq<XmlNode>, i: int, path: Seq<char>, pi: int, next: int)
    requires
        0 <= i < nodes.len(),
        0 <= pi,
        0 <= next <= kids(nodes, i).len(),
    ensures
        sequence_from(s, ps, nodes, i, path, pi, next).len() == 0 ==> forall|m: int|
            #![trigger kids(nodes, i)[m]]
            next <= m < kids(nodes, i).len() ==> exists|k: int|
                pi <= k < ps.len() && (#[trigger] ps[k]).name == nodes[kids(nodes, i)[m] as int].name@ && holds_to(
                    s,
                    ps[k],
                    nodes,
                    kids(nodes, i)[m] as int,
                ),
    decreases ps.len() - pi,
{
    let ks = kids(nodes, i);
    if pi >= ps.len() {
        lemma_unexpected_count(Seq::empty(), nodes, ks.skip(next), path, path);
        if next < ks.len() {
            assert(!names_particle(Seq::empty(), nodes[ks.skip(next)[0] as int].name@));
        }
    } else {
        let p = ps[pi];
        let n = taken(nodes, ks, next, p);
        lemma_run_count_names(nodes, ks, next, p.name);
        lemma_run_clean(s, p, nodes, i, path, next, n as int);
        lemma_sequence_clean(s, ps, nodes, i, path, pi + 1, next + n);
        if sequence_from(s, ps, nodes, i, path, pi, next).len() == 0 {
            assert forall|m: int| #![trigger ks[m]] next <= m < ks.len() implies exists|k: int|
                pi <= k < ps.len() && (#[trigger] ps[k]).name == nodes[ks[m] as int].name@ && holds_to(
                    s,
                    ps[k],
                    nodes,
                    ks[m] as int,
                ) by {
                if m < next + n {
                    assert(holds_to(s, p, nodes, ks[m] as int));
                    assert(ps[pi].name == nodes[ks[m] as int].name@);
                }
            }
        }
    }
}

/// A sequence holds only if every element child holds to a particle of its
/// name: each element a run takes, the first and every later one, is held
/// to its declaration, and nothing is left over.
pub proof fn law_sequence_holds_every_child(s: SchemaDecl, ps: Seq<ElementDecl>, nodes: Seq<XmlNode>, i: int, path: Seq<char>)
    requires
        0 <= i < nodes.len(),
    ensures
        sequence_from(s, ps, nodes, i, path, 0, 0).len() == 0 ==> forall|m: int|
            #![trigger kids(nodes, i)[m]]
            0 <= m < kids(nodes, i).len() ==> exists|k: int|
                0 <= k < ps.len() && (#[trigger] ps[k]).name == nodes[kids(nodes, i)[m] as int].name@ && holds_to(
                    s,
                    ps[k],
                    nodes,
                    kids(nodes, i)[m] as int,
                ),
{
    lemma_sequence_clean(s, ps, nodes, i, path, 0, 0);
}


/// Whether `cuts` splits the element children of node `i` into one run per
/// particle of `ps` from particle `pi` on, starting at child `next`: each
/// run only of elements of its particle's name, each holding to it, and as
/// long as the particle's bounds allow.
pub open spec fn runs_hold(s: SchemaDecl, ps: Seq<ElementDecl>, nodes: Seq<XmlNode>, i: int, pi: int, next: int, cuts: Seq<int>) -> bool {
    let ks = kids(nodes, i);
    &&& cuts.len() == ps.len() - pi + 1
    &&& cuts[0] == next
    &&& cuts.last() == ks.len()
    &&& forall|k: int|
        0 <= k < ps.len() - pi ==> {
            &&& cuts[k] <= #[trigger] cuts[k + 1]
            &&& occurs_within(ps[pi + k], (cuts[k + 1] - cuts[k]) as nat)
            &&& forall|q: int|
                cuts[k] <= q < cuts[k + 1] ==> nodes[#[trigger] ks[q] as int].name@ == ps[pi + k].name
                    && holds_to(s, ps[pi + k], nodes, ks[q] as int)
        }
}

proof fn lemma_sequence_cuts(s: SchemaDecl, ps: Seq<ElementDecl>, nodes: Seq<XmlNode>, i: int, path: Seq<char>, pi: int, next: int) -> (cuts: Seq<int>)
    requires
        0 <= i < nodes.len(),
        0 <= pi <= ps.len(),
        0 <= next <= kids(nodes, i).len(),
        sequence_from(s, ps, nodes, i, path, pi, next).len() == 0,
    ensures
        runs_hold(s, ps, nodes, i, pi, next, cuts),
    decreases ps.len() - pi,
{
    let ks = kids(nodes, i);
    if pi == ps.len() {
        lemma_unexpected_count(Seq::empty(), nodes, ks.skip(next), path, path);
        if next < ks.len() {
            assert(!names_particle(Seq::empty(), nodes[ks.skip(next)[0] as int].name@));
        }
        seq![next]
    } else {
        let p = ps[pi];
        let n = taken(nodes, ks, next, p);
        lemma_run_count_names(nodes, ks, next, p.name);
        lemma_run_clean(s, p, nodes, i, path, next, n as int);
        let rest = lemma_sequence_cuts(s, ps, nodes, i, path, pi + 1, next + n);
        let cuts = seq![next] + rest;
        assert forall|k: int| 0 <= k < ps.len() - pi implies {
            &&& cuts[k] <= #[trigger] cuts[k + 1]
            &&& occurs_within(ps[pi + k], (cuts[k + 1] - cuts[k]) as nat)
            &&& forall|q: int|
                cuts[k] <= q < cuts[k + 1] ==> nodes[#[trigger] ks[q] as int].name@ == ps[pi + k].name
                    && holds_to(s, ps[pi + k], nodes, ks[q] as int)
        } by {
            if k == 0 {
                assert(cuts[1] == rest[0]);
                assert(occurs_issues(p, n, path).len() == 0);
                assert forall|q: int| cuts[0] <= q < cuts[1] implies nodes[#[trigger] ks[q] as int].name@
                    == ps[pi].name && holds_to(s, ps[pi], nodes, ks[q] as int) by {
                    assert(holds_to(s, p, nodes, kids(nodes, i)[q] as int));
                }
            } else {
                assert(cuts[k] == rest[k - 1]);
                assert(cuts[k + 1] == rest[k]);
                assert(ps[pi + k] == ps[(pi + 1) + (k - 1)]);
                assert(rest[k - 1] <= rest[(k - 1) + 1]);
            }
        }
        cuts
    }
}

/// A sequence holds only if its element children split, in order, into one
/// run per particle: each run only of elements of that particle's name, as
/// long as its bounds allow, every element of it holding to the particle,
/// and no child left over.
pub proof fn law_sequence_is_runs_in_order(s: SchemaDecl, ps: Seq<ElementDecl>, nodes: Seq<XmlNode>, i: int, path: Seq<char>)
    requires
        0 <= i < nodes.len(),
    ensures
        sequence_from(s, ps, nodes, i, path, 0, 0).len() == 0 ==> exists|cuts: Seq<int>|
            #[trigger] runs_hold(s, ps, nodes, i, 0, 0, cuts),
{
    if sequence_from(s, ps, nodes, i, path, 0, 0).len() == 0 {
        let cuts = lemma_sequence_cuts(s, ps, nodes, i, path, 0, 0);
        assert(runs_hold(s, ps, nodes, i, 0, 0, cuts));
    }
}


/// An element holds to its declaration by kind: anything under `anyType`;
/// under a built-in, no element child and a value of that built-in; under a
/// named type, what that type holds, or one issue where it is undeclared;
/// under an inline type, what that type holds.
pub proof fn law_element_holds_by_kind(s: SchemaDecl, d: ElementDecl, nodes: Seq<XmlNode>, i: int, path: Seq<char>)
    requires
        0 <= i < nodes.len(),
    ensures
        d.kind is Any ==> element_issues(s, d, nodes, i, path).len() == 0,
        d.kind matches KindDecl::Builtin(b) ==> (element_issues(s, d, nodes, i, path).len() == 0 <==> kids(
            nodes,
            i,
        ).len() == 0 && value_issues(b, text_of(nodes[i]), path).len() == 0),
        d.kind matches KindDecl::Named(t) ==> if s.types.contains_key(t) {
            element_issues(s, d, nodes, i, path) == complex_issues(s, s.types[t], nodes, i, path)
        } else {
            element_issues(s, d, nodes, i, path).len() == 1
        },
        d.kind matches KindDecl::Inline(ct) ==> element_issues(s, d, nodes, i, path) == complex_issues(
            s,
            *ct,
            nodes,
            i,
            path,
        ),
{
    lemma_reject_count(nodes, kids(nodes, i), path);
}

/// A complex type holds exactly when its attributes hold and its content
/// does: empty content has no element child, simple content no element
/// child and a value of its built-in, and a compositor holds as such.
pub proof fn law_complex_holds_by_content(s: SchemaDecl, ct: ComplexTypeDecl, nodes: Seq<XmlNode>, i: int, path: Seq<char>)
    requires
        0 <= i < nodes.len(),
    ensures
        complex_issues(s, ct, nodes, i, path).len() == 0 <==> attribute_issues(nodes, i, ct, path).len() == 0
            && match ct.content {
            ContentDecl::Empty => kids(nodes, i).len() == 0,
            ContentDecl::Simple(b) => kids(nodes, i).len() == 0 && value_issues(b, text_of(nodes[i]), path).len()
                == 0,
            ContentDecl::Sequence(ps) => sequence_from(s, ps, nodes, i, path, 0, 0).len() == 0,
            ContentDecl::All(ps) => all_issues(s, ps, nodes, i, path).len() == 0,
            ContentDecl::Choice(ps) => choice_issues(s, ps, nodes, i, path).len() == 0,
        },
{
    lemma_reject_count(nodes, kids(nodes, i), path);
}


/// A document holds only if its root element is declared and holds to its
/// declaration at `/name`; an undeclared root is the one issue, a `root`
/// issue.
pub proof fn law_document_holds_from_its_root(s: SchemaDecl, nodes: Seq<XmlNode>, root: int)
    requires
        0 <= root < nodes.len(),
    ensures
        ({
            let name = nodes[root].name@;
            &&& s.elements.contains_key(name) ==> check_issues(s, nodes, root) == element_issues(
                s,
                s.elements[name],
                nodes,
                root,
                "/"@ + name,
            )
            &&& !s.elements.contains_key(name) ==> check_issues(s, nodes, root).len() == 1
                && check_issues(s, nodes, root)[0].code == "root"@
                && check_issues(s, nodes, root)[0].path == Some("/"@ + name)
        }),
{
}

} // verus!
