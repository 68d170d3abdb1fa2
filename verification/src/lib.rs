//! The XML content contract — a technology of `xmip-core-contract`.
//!
//! Two claims: **well-formedness is a given** and is always checked, and
//! **conformance is a given once a contract is named** — a Receive or Send
//! Location that refers to this contract with a schema bound has every Stream
//! validated against that schema. An unbound contract is the first claim
//! alone.
//!
//! The schema language is the XML Schema subset that [`schema`] documents:
//! element declarations, `sequence`, `all` and `choice` content, occurrence
//! bounds, attributes and the built-in simple types. Nothing outside it is
//! silently accepted — a schema that uses more is refused when it is bound, so
//! an operator learns at configuration time, not from a Stream that passed.

pub mod check;
pub mod contract;
pub mod schema;
pub mod text;
pub mod xml;

use crate::check::{check, check_issues};
use crate::contract::{
    issues_view, ContractDescriptor, ContractError, ContractId, Issue, Stream, ValidationIssue,
    ValidationResult,
};
use crate::schema::{Schema, SchemaDecl, schema_of_text};
use crate::text::{
    before_first, chars_of, decimal, decimal_text, lemma_essence_settled, prefix_before,
    same_ignoring_ascii_case, same_ignoring_case, trim, trimmed,
};
use crate::xml::{
    no_root_message, nodes_ordered, parse_document, root_element, roxmltree_parse, XmlDocument,
    XmlError,
};
use vstd::prelude::*;
use vstd::utf8::{decode_utf8, valid_utf8};

verus! {

/// The XML contract, bare or bound to a schema.
pub struct XmlSchema {
    descriptor: ContractDescriptor,
    schema: Option<Schema>,
}

/// A contract as text: its name, and the schema bound, if any.
pub struct XmlContract {
    pub id: Seq<char>,
    pub schema: Option<SchemaDecl>,
}

impl View for XmlSchema {
    type V = XmlContract;

    closed spec fn view(&self) -> XmlContract {
        XmlContract {
            id: self.descriptor.id.0@,
            schema: match self.schema {
                Some(s) => Some(s@),
                None => None,
            },
        }
    }
}

/// The name of the contract bound to a schema with this target namespace.
pub open spec fn bound_id(target_namespace: Option<Seq<char>>) -> Seq<char> {
    "xml-schema:"@ + match target_namespace {
        Some(t) => t,
        None => "bound"@,
    }
}

impl XmlSchema {
    #[verifier::type_invariant]
    closed spec fn describes_xml(&self) -> bool {
        &&& self.descriptor.version@ == "1"@
        &&& self.descriptor.representation@ == "application/xml"@
    }

    /// Well-formedness only.
    pub fn new() -> (r: XmlSchema)
        ensures
            r@.id == "xml-schema"@,
            r@.schema is None,
    {
        XmlSchema { descriptor: descriptor("xml-schema"), schema: None }
    }

    /// Well-formedness and conformance to the XML Schema document `text`.
    ///
    /// # Errors
    /// The schema must be well-formed, rooted at `xs:schema`, and within the
    /// subset [`schema`] documents.
    pub fn with_schema(text: &str) -> (r: Result<XmlSchema, ContractError>)
        ensures
            match schema_of_text(text@) {
                Ok(d) => r matches Ok(x) && x@.schema == Some(d) && x@.id == bound_id(
                    d.target_namespace,
                ),
                Err(m) => r matches Err(e) && e.message@ == m,
            },
    {
        let schema = match Schema::parse(text) {
            Ok(s) => s,
            Err(e) => return Err(e),
        };
        let mut id = "xml-schema:".to_owned();
        match schema.target_namespace() {
            Some(t) => id.append(t),
            None => id.append("bound"),
        }
        Ok(XmlSchema { descriptor: descriptor(id.as_str()), schema: Some(schema) })
    }

    /// Whether a schema is bound.
    pub fn is_bound(&self) -> (r: bool)
        ensures
            r == self@.schema is Some,
    {
        self.schema.is_some()
    }

    /// What this contract is.
    pub fn descriptor(&self) -> (r: &ContractDescriptor)
        ensures
            r.id.0@ == self@.id,
            r.version@ == "1"@,
            r.representation@ == "application/xml"@,
    {
        proof {
            use_type_invariant(self);
        }
        &self.descriptor
    }

    /// Whether a Stream is this contract's to hold: declared as XML, or
    /// starting (past white space) with `<`.
    pub fn identify(&self, stream: &Stream) -> (r: Result<bool, ContractError>)
        ensures
            r matches Ok(b) && b == identifies(stream.spec_media_type(), stream.spec_bytes()),
    {
        let declared = match stream.media_type() {
            Some(m) => is_xml_media_type(m),
            None => false,
        };
        if declared {
            return Ok(true);
        }
        Ok(first_content_byte_of(stream.bytes()) == Some(60u8))
    }

    /// Holds a Stream to the contract: it must be UTF-8 text and well-formed
    /// XML, and, where a schema is bound, conform to it.
    pub fn validate(&self, stream: &Stream) -> (r: Result<ValidationResult, ContractError>)
        ensures
            r matches Ok(v) && result_view(v) == validation_of_bytes(self@, stream.spec_bytes()),
    {
        match utf8_text(stream.bytes()) {
            Err(error) => {
                let message = joined_text("not UTF-8 text: ", error.as_str());
                Ok(malformed(message.as_str(), None))
            },
            Ok(text) => Ok(self.validate_text(text)),
        }
    }

    /// Holds an XML text to the contract.
    pub fn validate_text(&self, text: &str) -> (r: ValidationResult)
        ensures
            result_view(r) == validation_of_text(self@, text@),
    {
        self.validate_document(parse_document(text))
    }

    /// Holds a parsed document, or the reason it could not be parsed, to the
    /// contract.
    pub fn validate_document(&self, parsed: Result<XmlDocument, XmlError>) -> (r: ValidationResult)
        requires
            parsed matches Ok(d) ==> d.wf(),
        ensures
            result_view(r) == match parsed {
                Err(e) => not_well_formed(e.message@, e.row, e.col),
                Ok(d) => conformance(self@, d.nodes@, d.root as int),
            },
    {
        match parsed {
            Err(error) => {
                let message = joined_text("not well-formed XML: ", error.message.as_str());
                let mut at = "line ".to_owned();
                at.append(decimal_text(error.row as u64).as_str());
                at.append(" column ");
                at.append(decimal_text(error.col as u64).as_str());
                malformed(message.as_str(), Some(at))
            },
            Ok(document) => {
                let issues = match &self.schema {
                    Some(schema) => check(schema, &document),
                    None => Vec::new(),
                };
                assert(issues_view(issues@).len() == issues@.len());
                ValidationResult { valid: issues.len() == 0, issues }
            },
        }
    }
}

impl Default for XmlSchema {
    fn default() -> (r: XmlSchema)
        ensures
            r@.id == "xml-schema"@,
            r@.schema is None,
    {
        XmlSchema::new()
    }
}

fn descriptor(id: &str) -> (r: ContractDescriptor)
    ensures
        r.id.0@ == id@,
        r.version@ == "1"@,
        r.representation@ == "application/xml"@,
{
    ContractDescriptor {
        id: ContractId(id.to_owned()),
        version: "1".to_owned(),
        representation: "application/xml".to_owned(),
    }
}

fn joined_text(a: &str, b: &str) -> (r: String)
    ensures
        r@ == a@ + b@,
{
    let mut r = a.to_owned();
    r.append(b);
    r
}

/// A validation result as text: whether the Stream held, and every issue.
pub open spec fn result_view(r: ValidationResult) -> (bool, Seq<Issue>) {
    (r.valid, issues_view(r.issues@))
}

/// The result of a Stream that is not XML: one `malformed` issue.
pub open spec fn malformed_result(message: Seq<char>, path: Option<Seq<char>>) -> (bool, Seq<Issue>) {
    (false, seq![Issue { code: "malformed"@, message, path }])
}

/// The result of a text that is not well-formed, at the row and column.
pub open spec fn not_well_formed(message: Seq<char>, row: u32, col: u32) -> (bool, Seq<Issue>) {
    malformed_result(
        "not well-formed XML: "@ + message,
        Some("line "@ + decimal(row as nat) + " column "@ + decimal(col as nat)),
    )
}

/// The result of a well-formed document: the departures from the bound
/// schema, none where no schema is bound.
pub open spec fn conformance(c: XmlContract, nodes: Seq<crate::xml::XmlNode>, root: int) -> (bool, Seq<Issue>) {
    let issues = match c.schema {
        Some(s) => check_issues(s, nodes, root),
        None => Seq::empty(),
    };
    (issues.len() == 0, issues)
}

/// The result of holding the text `text` to the contract.
pub open spec fn validation_of_text(c: XmlContract, text: Seq<char>) -> (bool, Seq<Issue>) {
    match roxmltree_parse(text) {
        Err((message, row, col)) => not_well_formed(message@, row, col),
        Ok(nodes) => if nodes_ordered(nodes) && root_element(nodes) is Some {
            conformance(c, nodes, root_element(nodes).unwrap() as int)
        } else {
            not_well_formed(no_root_message(), 1, 1)
        },
    }
}

/// The result of holding the bytes `bytes` to the contract.
pub open spec fn validation_of_bytes(c: XmlContract, bytes: Seq<u8>) -> (bool, Seq<Issue>) {
    if valid_utf8(bytes) {
        validation_of_text(c, decode_utf8(bytes))
    } else {
        malformed_result("not UTF-8 text: "@ + utf8_error_message(bytes), None)
    }
}

fn malformed(message: &str, path: Option<String>) -> (r: ValidationResult)
    ensures
        result_view(r) == malformed_result(
            message@,
            match path {
                Some(p) => Some(p@),
                None => None,
            },
        ),
{
    let mut issues: Vec<ValidationIssue> = Vec::new();
    issues.push(ValidationIssue { code: "malformed".to_owned(), message: message.to_owned(), path });
    let r = ValidationResult { valid: false, issues };
    assert(issues_view(r.issues@) =~= malformed_result(
        message@,
        match path {
            Some(p) => Some(p@),
            None => None,
        },
    ).1);
    r
}

/// What `Utf8Error`'s `Display` writes for bytes that are not UTF-8.
pub uninterp spec fn utf8_error_message(bytes: Seq<u8>) -> Seq<char>;

/// `std::str::from_utf8`: the text where `bytes` are UTF-8, else the
/// error's `Display` text.
#[verifier::external_body]
fn utf8_text(bytes: &[u8]) -> (r: Result<&str, String>)
    ensures
        match r {
            Ok(t) => valid_utf8(bytes@) && t@ == decode_utf8(bytes@),
            Err(m) => !valid_utf8(bytes@) && m@ == utf8_error_message(bytes@),
        },
{
    std::str::from_utf8(bytes).map_err(|e| e.to_string())
}

/// ASCII white space, as `u8::is_ascii_whitespace` has it.
pub open spec fn is_ascii_space(b: u8) -> bool {
    b == 32 || b == 9 || b == 10 || b == 12 || b == 13
}

/// The first byte that is not ASCII white space.
pub open spec fn first_content_byte(bytes: Seq<u8>) -> Option<u8>
    decreases bytes.len(),
{
    if bytes.len() == 0 {
        None
    } else if is_ascii_space(bytes[0]) {
        first_content_byte(bytes.drop_first())
    } else {
        Some(bytes[0])
    }
}

fn first_content_byte_of(bytes: &[u8]) -> (r: Option<u8>)
    ensures
        r == first_content_byte(bytes@),
{
    let mut k: usize = 0;
    assert(bytes@.skip(0) =~= bytes@);
    while k < bytes.len()
        invariant
            k <= bytes@.len(),
            first_content_byte(bytes@) == first_content_byte(bytes@.skip(k as int)),
        decreases bytes@.len() - k,
    {
        let b = bytes[k];
        assert(bytes@.skip(k as int)[0] == b);
        if !(b == 32 || b == 9 || b == 10 || b == 12 || b == 13) {
            return Some(b);
        }
        assert(bytes@.skip(k as int).drop_first() =~= bytes@.skip(k + 1));
        k = k + 1;
    }
    None
}

/// Whether a media type declares XML: `application/xml`, `text/xml` (in any
/// ASCII case), or any `+xml` type, parameters aside.
pub open spec fn is_xml_media(media_type: Seq<char>) -> bool {
    let essence = trimmed(before_first(media_type, ';'));
    ||| same_ignoring_ascii_case(essence, "application/xml"@)
    ||| same_ignoring_ascii_case(essence, "text/xml"@)
    ||| (essence.len() >= 4 && essence.subrange(essence.len() - 4, essence.len() as int) == "+xml"@)
}

/// Whether a Stream is XML: by its declared media type, or by its first byte
/// past white space being `<`.
pub open spec fn identifies(media_type: Option<String>, bytes: Seq<u8>) -> bool {
    (media_type matches Some(m) && is_xml_media(m@)) || first_content_byte(bytes) == Some(60u8)
}

/// Whether `s` ends with `suffix`.
fn ends_with_text(s: &str, suffix: &str) -> (r: bool)
    ensures
        r == (suffix@.len() <= s@.len() && s@.subrange(s@.len() - suffix@.len(), s@.len() as int)
            == suffix@),
{
    let cs = chars_of(s);
    let xs = chars_of(suffix);
    if xs.len() > cs.len() {
        return false;
    }
    let base = cs.len() - xs.len();
    let mut k: usize = 0;
    while k < xs.len()
        invariant
            k <= xs@.len(),
            cs@ == s@,
            xs@ == suffix@,
            base + xs@.len() == cs@.len(),
            cs@.len() == cs.len(),
            forall|q: int| 0 <= q < k ==> #[trigger] xs@[q] == cs@[base + q],
        decreases xs@.len() - k,
    {
        if cs[base + k] != xs[k] {
            assert(cs@.subrange(base as int, cs@.len() as int)[k as int] != xs@[k as int]);
            return false;
        }
        k = k + 1;
    }
    assert(cs@.subrange(base as int, cs@.len() as int) =~= xs@);
    true
}

/// Whether a media type declares XML.
pub fn is_xml_media_type(media_type: &str) -> (r: bool)
    ensures
        r == is_xml_media(media_type@),
{
    let essence = trim(prefix_before(media_type, ';'));
    proof {
        reveal_strlit("+xml");
    }
    same_ignoring_case(essence, "application/xml") || same_ignoring_case(essence, "text/xml")
        || ends_with_text(essence, "+xml")
}

/// Loads the contract a Location names: an empty reference is the bare
/// contract, anything else is the path of a schema file.
pub struct XmlSchemaFactory;

/// The message of a schema file that cannot be read.
pub open spec fn unreadable(reference: Seq<char>, error: Seq<char>) -> Seq<char> {
    "cannot read schema "@ + reference + ": "@ + error
}

impl XmlSchemaFactory {
    pub fn technology(&self) -> (r: &'static str)
        ensures
            r@ == "xml-schema"@,
    {
        "xml-schema"
    }

    /// Whether `reference` names the bare contract: it is blank.
    pub fn is_bare(reference: &str) -> (r: bool)
        ensures
            r == (trimmed(reference@).len() == 0),
    {
        trim(reference).is_empty()
    }

    /// The contract `reference` names, given what reading the file it names
    /// gave: its text, or the reason it could not be read. A blank reference
    /// is the bare contract, whatever was read.
    ///
    /// # Errors
    /// The file could not be read, or its schema is refused.
    pub fn load(&self, reference: &str, read: Result<String, String>) -> (r: Result<XmlSchema, ContractError>)
        ensures
            trimmed(reference@).len() == 0 ==> (r matches Ok(x) && x@.id == "xml-schema"@
                && x@.schema is None),
            trimmed(reference@).len() != 0 ==> match read {
                Err(error) => r matches Err(e) && e.message@ == unreadable(reference@, error@),
                Ok(text) => match schema_of_text(text@) {
                    Ok(d) => r matches Ok(x) && x@.schema == Some(d) && x@.id == bound_id(
                        d.target_namespace,
                    ),
                    Err(m) => r matches Err(e) && e.message@ == m,
                },
            },
    {
        if XmlSchemaFactory::is_bare(reference) {
            return Ok(XmlSchema::new());
        }
        match read {
            Err(error) => {
                let mut message = "cannot read schema ".to_owned();
                message.append(reference);
                message.append(": ");
                message.append(error.as_str());
                Err(ContractError { message })
            },
            Ok(text) => XmlSchema::with_schema(text.as_str()),
        }
    }
}

/// A Stream holds to the contract exactly when no issue is found in it.
pub proof fn law_valid_exactly_without_issues(c: XmlContract, bytes: Seq<u8>)
    ensures
        validation_of_bytes(c, bytes).0 <==> validation_of_bytes(c, bytes).1.len() == 0,
{
}

/// Well-formedness is a given: bytes that are not UTF-8, or text that is not
/// well-formed XML, fail with a single `malformed` issue, the latter at the
/// line and column where the parser stopped.
pub proof fn law_malformed_fails_once(c: XmlContract, bytes: Seq<u8>)
    ensures
        !valid_utf8(bytes) ==> {
            let (valid, issues) = validation_of_bytes(c, bytes);
            &&& !valid
            &&& issues.len() == 1
            &&& issues[0].code == "malformed"@
            &&& issues[0].path is None
        },
        valid_utf8(bytes) ==> match roxmltree_parse(decode_utf8(bytes)) {
            Err((message, row, col)) => {
                let (valid, issues) = validation_of_bytes(c, bytes);
                &&& !valid
                &&& issues.len() == 1
                &&& issues[0].code == "malformed"@
                &&& issues[0].message == "not well-formed XML: "@ + message@
                &&& issues[0].path == Some("line "@ + decimal(row as nat) + " column "@ + decimal(col as nat))
            },
            Ok(_) => true,
        },
{
}

/// An unbound contract is well-formedness alone: it holds every Stream that
/// is UTF-8 text and well-formed XML.
pub proof fn law_bare_contract_holds_well_formed_xml(c: XmlContract, bytes: Seq<u8>)
    requires
        c.schema is None,
        valid_utf8(bytes),
        roxmltree_parse(decode_utf8(bytes)) matches Ok(nodes) && nodes_ordered(nodes)
            && root_element(nodes) is Some,
    ensures
        validation_of_bytes(c, bytes) == (true, Seq::<Issue>::empty()),
{
}


/// Parameters and surrounding white space never change whether a media type
/// declares XML: it does exactly when its essence, the trimmed text before
/// the first `;`, does; and an essence of `application/xml` or `text/xml`,
/// in any ASCII case, or one ending in `+xml`, always declares it, and a
/// Stream declared so is identified whatever its bytes.
pub proof fn law_media_type_parameters_do_not_matter(media_type: Seq<char>)
    ensures
        ({
            let essence = trimmed(before_first(media_type, ';'));
            &&& is_xml_media(media_type) == is_xml_media(essence)
            &&& same_ignoring_ascii_case(essence, "application/xml"@) ==> is_xml_media(media_type)
            &&& same_ignoring_ascii_case(essence, "text/xml"@) ==> is_xml_media(media_type)
            &&& essence.len() >= 4 && essence.subrange(essence.len() - 4, essence.len() as int) == "+xml"@
                ==> is_xml_media(media_type)
            &&& forall|m: String, bytes: Seq<u8>|
                m@ == media_type && is_xml_media(media_type) ==> #[trigger] identifies(Some(m), bytes)
        }),
{
    lemma_essence_settled(media_type, ';');
}

} // verus!
