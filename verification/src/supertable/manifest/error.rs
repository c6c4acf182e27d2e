//! Why a manifest part, or a summary inside it, does not decode.

use vstd::prelude::*;
use vstd::string::StringExecFns;
use crate::text::{decimal, push_decimal};

verus! {

/// Why a per-column summary does not decode.
#[derive(Debug, Clone, Copy)]
pub enum DecodeError {
    /// The buffer ends before the field does.
    Truncated { needed: usize, had: usize, what: &'static str },
}

impl DecodeError {
    pub open spec fn message_spec(&self) -> Seq<char> {
        match self {
            DecodeError::Truncated { needed, had, what } => "truncated "@ + what@ + ": needed "@
                + decimal(*needed as nat) + " bytes, had "@ + decimal(*had as nat),
        }
    }

    /// The message for this error.
    pub fn message(&self) -> (text: String)
        ensures
            text@ == self.message_spec(),
    {
        match self {
            DecodeError::Truncated { needed, had, what } => {
                let mut text = String::new();
                text.append("truncated ");
                text.append(what);
                text.append(": needed ");
                push_decimal(&mut text, *needed as u64);
                text.append(" bytes, had ");
                push_decimal(&mut text, *had as u64);
                assert(text@ =~= self.message_spec());
                text
            },
        }
    }
}

/// Why the bytes of a manifest part do not decode.
#[derive(Debug, Clone)]
pub enum PartParseError {
    /// The compressed frame is damaged.
    Zstd(String),
    /// The datum inside the frame is damaged.
    Avro(String),
    /// The datum, or a packed field, has another shape than the schema's.
    SchemaMismatch(String),
    /// A per-column summary does not decode.
    SummaryDecode(DecodeError),
    /// An identifier is no UUID.
    BadSuperfileId(String),
    /// The part was written by an incompatible major version.
    IncompatibleMajorVersion { got: String, supported: String },
    /// A field is absent.
    MissingField(&'static str),
    /// A field has another type than the schema's.
    WrongFieldType(&'static str),
}

/// A [`PartParseError`] with its texts as sequences of characters.
#[verifier::ext_equal]
pub enum PartFault {
    Zstd(Seq<char>),
    Avro(Seq<char>),
    SchemaMismatch(Seq<char>),
    SummaryDecode(DecodeError),
    BadSuperfileId(Seq<char>),
    IncompatibleMajorVersion { got: Seq<char>, supported: Seq<char> },
    MissingField(Seq<char>),
    WrongFieldType(Seq<char>),
}

impl View for PartParseError {
    type V = PartFault;

    open spec fn view(&self) -> PartFault {
        match self {
            PartParseError::Zstd(s) => PartFault::Zstd(s@),
            PartParseError::Avro(s) => PartFault::Avro(s@),
            PartParseError::SchemaMismatch(s) => PartFault::SchemaMismatch(s@),
            PartParseError::SummaryDecode(e) => PartFault::SummaryDecode(*e),
            PartParseError::BadSuperfileId(s) => PartFault::BadSuperfileId(s@),
            PartParseError::IncompatibleMajorVersion { got, supported } =>
                PartFault::IncompatibleMajorVersion { got: got@, supported: supported@ },
            PartParseError::MissingField(s) => PartFault::MissingField(s@),
            PartParseError::WrongFieldType(s) => PartFault::WrongFieldType(s@),
        }
    }
}

impl PartFault {
    /// The message that reports the fault.
    pub open spec fn message(self) -> Seq<char> {
        match self {
            PartFault::Zstd(s) => "zstd decompress failed: "@ + s,
            PartFault::Avro(s) => "avro decode failed: "@ + s,
            PartFault::SchemaMismatch(s) => "schema mismatch: "@ + s,
            PartFault::SummaryDecode(e) => "per-summary decode failed: "@ + e.message_spec(),
            PartFault::BadSuperfileId(s) => "malformed superfile_id uuid: "@ + s,
            PartFault::IncompatibleMajorVersion { got, supported } =>
                "incompatible major version: got "@ + got + ", supported "@ + supported,
            PartFault::MissingField(s) => "missing field: "@ + s,
            PartFault::WrongFieldType(s) => "wrong avro field type for "@ + s,
        }
    }
}

/// `prefix` followed by `rest`.
pub(crate) fn joined(prefix: &str, rest: &str) -> (text: String)
    ensures
        text@ == prefix@ + rest@,
{
    let mut text = String::new();
    text.append(prefix);
    text.append(rest);
    assert(text@ =~= prefix@ + rest@);
    text
}

impl PartParseError {
    /// The message for this error.
    pub fn message(&self) -> (text: String)
        ensures
            text@ == self@.message(),
    {
        match self {
            PartParseError::Zstd(s) => joined("zstd decompress failed: ", s),
            PartParseError::Avro(s) => joined("avro decode failed: ", s),
            PartParseError::SchemaMismatch(s) => joined("schema mismatch: ", s),
            PartParseError::SummaryDecode(e) => {
                let inner = e.message();
                joined("per-summary decode failed: ", &inner)
            },
            PartParseError::BadSuperfileId(s) => joined("malformed superfile_id uuid: ", s),
            PartParseError::IncompatibleMajorVersion { got, supported } => {
                let mut text = joined("incompatible major version: got ", got);
                text.append(", supported ");
                text.append(supported);
                text
            },
            PartParseError::MissingField(s) => joined("missing field: ", s),
            PartParseError::WrongFieldType(s) => joined("wrong avro field type for ", s),
        }
    }
}

impl From<DecodeError> for PartParseError {
    fn from(error: DecodeError) -> (lifted: Self) {
        PartParseError::SummaryDecode(error)
    }
}

impl vstd::std_specs::convert::FromSpecImpl<DecodeError> for PartParseError {
    open spec fn obeys_from_spec() -> bool {
        true
    }

    open spec fn from_spec(error: DecodeError) -> Self {
        PartParseError::SummaryDecode(error)
    }
}

/// A message says what is wrong with a part, and where.
pub proof fn lemma_part_messages(error: PartParseError, text: String)
    requires
        call_ensures(PartParseError::message, (&error,), text),
    ensures
        error matches PartParseError::Zstd(s) ==> text@ == "zstd decompress failed: "@ + s@,
        error matches PartParseError::Avro(s) ==> text@ == "avro decode failed: "@ + s@,
        error matches PartParseError::SchemaMismatch(s) ==> text@ == "schema mismatch: "@ + s@,
        error matches PartParseError::BadSuperfileId(s) ==> text@
            == "malformed superfile_id uuid: "@ + s@,
        error matches PartParseError::IncompatibleMajorVersion { got, supported } ==> text@
            == "incompatible major version: got "@ + got@ + ", supported "@ + supported@,
        error matches PartParseError::MissingField(s) ==> text@ == "missing field: "@ + s@,
        error matches PartParseError::WrongFieldType(s) ==> text@ == "wrong avro field type for "@
            + s@,
        error matches PartParseError::SummaryDecode(DecodeError::Truncated { needed, had, what })
            ==> text@ == "per-summary decode failed: "@ + ("truncated "@ + what@ + ": needed "@
            + decimal(needed as nat) + " bytes, had "@ + decimal(had as nat)),
{
}

} // verus!
