//! What a content contract exchanges with the Locations that name it: the
//! Stream it is shown, the issues it reports, the errors it refuses with.

use vstd::prelude::*;

verus! {

/// Why a contract cannot be used as configured.
pub struct ContractError {
    pub message: String,
}

/// One departure of a Stream from a contract: what failed (`code`), how, and
/// where (`path`).
pub struct ValidationIssue {
    pub code: String,
    pub message: String,
    pub path: Option<String>,
}

/// An issue as text.
pub struct Issue {
    pub code: Seq<char>,
    pub message: Seq<char>,
    pub path: Option<Seq<char>>,
}

impl View for ValidationIssue {
    type V = Issue;

    open spec fn view(&self) -> Issue {
        Issue {
            code: self.code@,
            message: self.message@,
            path: match self.path {
                Some(p) => Some(p@),
                None => None,
            },
        }
    }
}

/// The issues of a list, as text.
pub open spec fn issues_view(issues: Seq<ValidationIssue>) -> Seq<Issue> {
    issues.map_values(|i: ValidationIssue| i@)
}

impl ValidationIssue {
    /// An issue found at `path`.
    pub fn at(code: &str, message: &str, path: &str) -> (r: ValidationIssue)
        ensures
            r@ == (Issue { code: code@, message: message@, path: Some(path@) }),
    {
        ValidationIssue { code: code.to_owned(), message: message.to_owned(), path: Some(path.to_owned()) }
    }
}

/// Whether a Stream holds to a contract, and every issue found.
pub struct ValidationResult {
    pub valid: bool,
    pub issues: Vec<ValidationIssue>,
}

/// The name of a contract.
pub struct ContractId(pub String);

/// What a contract is: its name, its version, and the representation it
/// holds Streams to.
pub struct ContractDescriptor {
    pub id: ContractId,
    pub version: String,
    pub representation: String,
}

/// The number of a Stream.
#[derive(Clone, Copy)]
pub struct StreamId(pub u64);

impl StreamId {
    pub fn new(id: u64) -> (r: StreamId)
        ensures
            r.0 == id,
    {
        StreamId(id)
    }
}

/// The bytes a Location received or sends, with the media type it was
/// declared as, if any.
pub struct Stream {
    id: StreamId,
    bytes: Vec<u8>,
    media_type: Option<String>,
}

impl Stream {
    pub fn new(id: StreamId, bytes: Vec<u8>, media_type: Option<String>) -> (r: Stream)
        ensures
            r.spec_id() == id,
            r.spec_bytes() == bytes@,
            r.spec_media_type() == media_type,
    {
        Stream { id, bytes, media_type }
    }

    pub closed spec fn spec_id(&self) -> StreamId {
        self.id
    }

    pub closed spec fn spec_bytes(&self) -> Seq<u8> {
        self.bytes@
    }

    pub closed spec fn spec_media_type(&self) -> Option<String> {
        self.media_type
    }

    pub fn id(&self) -> (r: StreamId)
        ensures
            r == self.spec_id(),
    {
        self.id
    }

    pub fn bytes(&self) -> (r: &[u8])
        ensures
            r@ == self.spec_bytes(),
    {
        self.bytes.as_slice()
    }

    pub fn media_type(&self) -> (r: Option<&str>)
        ensures
            match self.spec_media_type() {
                Some(m) => r matches Some(s) && s@ == m@,
                None => r is None,
            },
    {
        match &self.media_type {
            Some(m) => Some(m.as_str()),
            None => None,
        }
    }
}

} // verus!
