//! Object storage: errors, object metadata and the rules around requests.

pub mod credentials;
pub mod options;
pub mod s3;

use vstd::prelude::*;
use vstd::string::StringExecFns;

verus! {

/// Why a storage request failed. `source` is the message of the cause.
#[derive(Debug, Clone, PartialEq, Eq)]
pub enum StorageError {
    /// There is no object under the URI.
    NotFound { uri: String },
    /// A conditional write found another state than it expected.
    PreconditionFailed { uri: String },
    /// A fault that may pass, after all retries.
    TransientExhausted { uri: String, source: String },
    /// A fault that will not pass.
    Permanent { uri: String, source: String },
}

/// [`StorageError`] over sequences of characters.
#[verifier::ext_equal]
pub enum StorageFault {
    NotFound { uri: Seq<char> },
    PreconditionFailed { uri: Seq<char> },
    TransientExhausted { uri: Seq<char>, source: Seq<char> },
    Permanent { uri: Seq<char>, source: Seq<char> },
}

impl View for StorageError {
    type V = StorageFault;

    open spec fn view(&self) -> StorageFault {
        match self {
            StorageError::NotFound { uri } => StorageFault::NotFound { uri: uri@ },
            StorageError::PreconditionFailed { uri } => StorageFault::PreconditionFailed {
                uri: uri@,
            },
            StorageError::TransientExhausted { uri, source } => StorageFault::TransientExhausted {
                uri: uri@,
                source: source@,
            },
            StorageError::Permanent { uri, source } => StorageFault::Permanent {
                uri: uri@,
                source: source@,
            },
        }
    }
}

impl StorageFault {
    /// The message that reports the fault.
    pub open spec fn message(self) -> Seq<char> {
        match self {
            StorageFault::NotFound { uri } => "not found: "@ + uri,
            StorageFault::PreconditionFailed { uri } => "precondition failed: "@ + uri,
            StorageFault::TransientExhausted { uri, source } => "transient failure: "@ + uri
                + ": "@ + source,
            StorageFault::Permanent { uri, source } => "permanent failure: "@ + uri + ": "@
                + source,
        }
    }
}

impl StorageError {
    /// The message for this error.
    pub fn message(&self) -> (text: String)
        ensures
            text@ == self@.message(),
    {
        let mut text = String::new();
        match self {
            StorageError::NotFound { uri } => {
                text.append("not found: ");
                text.append(uri);
            },
            StorageError::PreconditionFailed { uri } => {
                text.append("precondition failed: ");
                text.append(uri);
            },
            StorageError::TransientExhausted { uri, source } => {
                text.append("transient failure: ");
                text.append(uri);
                text.append(": ");
                text.append(source);
            },
            StorageError::Permanent { uri, source } => {
                text.append("permanent failure: ");
                text.append(uri);
                text.append(": ");
                text.append(source);
            },
        }
        assert(text@ =~= self@.message());
        text
    }
}

/// A message says what kind of failure it was and of which object, and gives the
/// cause if there is one.
pub proof fn lemma_storage_messages(error: StorageError, text: String)
    requires
        call_ensures(StorageError::message, (&error,), text),
    ensures
        error matches StorageError::NotFound { uri } ==> text@ == "not found: "@ + uri@,
        error matches StorageError::PreconditionFailed { uri } ==> text@ == "precondition failed: "@
            + uri@,
        error matches StorageError::TransientExhausted { uri, source } ==> text@
            == "transient failure: "@ + uri@ + ": "@ + source@,
        error matches StorageError::Permanent { uri, source } ==> text@ == "permanent failure: "@
            + uri@ + ": "@ + source@,
{
}

/// Errors that look the same are of one kind and have the same texts.
pub proof fn lemma_storage_errors_are_their_texts(a: StorageError, b: StorageError)
    requires
        a@ == b@,
    ensures
        a is NotFound == b is NotFound,
        a is PreconditionFailed == b is PreconditionFailed,
        a is TransientExhausted == b is TransientExhausted,
        a is Permanent == b is Permanent,
        a matches StorageError::NotFound { uri } ==> uri@ == b->NotFound_uri@,
        a matches StorageError::PreconditionFailed { uri } ==> uri@ == b->PreconditionFailed_uri@,
        a matches StorageError::TransientExhausted { uri, source } ==> uri@
            == b->TransientExhausted_uri@ && source@ == b->TransientExhausted_source@,
        a matches StorageError::Permanent { uri, source } ==> uri@ == b->Permanent_uri@ && source@
            == b->Permanent_source@,
{
}

} // verus!
