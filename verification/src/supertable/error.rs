//! Errors of commits, opens and queries.

use vstd::prelude::*;
use crate::storage::{StorageError, StorageFault};

verus! {

/// Why a commit, or a step of one, failed.
#[derive(Debug, Clone, PartialEq, Eq)]
pub enum CommitError {
    /// The pointer file, or a partition key, does not parse.
    PointerParse(String),
    /// A manifest part or list does not encode.
    Encode(String),
    /// Storage failed.
    Storage(StorageError),
    /// Another writer published first.
    WriteContentionExhausted,
    /// A superfile does not lie in one partition.
    SuperfileSpansPartition { detail: String },
}

/// [`CommitError`] over sequences of characters.
#[verifier::ext_equal]
pub enum CommitFault {
    PointerParse(Seq<char>),
    Encode(Seq<char>),
    Storage(StorageFault),
    WriteContentionExhausted,
    SuperfileSpansPartition { detail: Seq<char> },
}

impl View for CommitError {
    type V = CommitFault;

    open spec fn view(&self) -> CommitFault {
        match self {
            CommitError::PointerParse(text) => CommitFault::PointerParse(text@),
            CommitError::Encode(text) => CommitFault::Encode(text@),
            CommitError::Storage(error) => CommitFault::Storage(error@),
            CommitError::WriteContentionExhausted => CommitFault::WriteContentionExhausted,
            CommitError::SuperfileSpansPartition { detail } =>
                CommitFault::SuperfileSpansPartition { detail: detail@ },
        }
    }
}

impl From<StorageError> for CommitError {
    fn from(error: StorageError) -> (lifted: Self) {
        CommitError::Storage(error)
    }
}

impl vstd::std_specs::convert::FromSpecImpl<StorageError> for CommitError {
    open spec fn obeys_from_spec() -> bool {
        true
    }

    open spec fn from_spec(error: StorageError) -> Self {
        CommitError::Storage(error)
    }
}

/// Why a query failed.
#[derive(Debug, Clone, PartialEq, Eq)]
pub enum QueryError {
    /// A manifest part could not be loaded.
    ManifestLoad(String),
    /// A superfile could not be read.
    Parquet(String),
    /// A cache or storage failed.
    Store(String),
    /// The query could not be executed.
    Execute(String),
}

/// [`QueryError`] over sequences of characters.
#[verifier::ext_equal]
pub enum QueryFault {
    ManifestLoad(Seq<char>),
    Parquet(Seq<char>),
    Store(Seq<char>),
    Execute(Seq<char>),
}

impl View for QueryError {
    type V = QueryFault;

    open spec fn view(&self) -> QueryFault {
        match self {
            QueryError::ManifestLoad(text) => QueryFault::ManifestLoad(text@),
            QueryError::Parquet(text) => QueryFault::Parquet(text@),
            QueryError::Store(text) => QueryFault::Store(text@),
            QueryError::Execute(text) => QueryFault::Execute(text@),
        }
    }
}

/// Why a table could not be opened or refreshed.
#[derive(Debug, Clone, PartialEq, Eq)]
pub enum OpenError {
    /// The options do not allow it.
    Build(String),
    /// There is no pointer file.
    PointerUnreadable(StorageError),
    /// The pointer file could not be read.
    Pointer(CommitError),
    /// Storage failed.
    Storage(StorageError),
    /// The manifest list does not parse.
    ManifestListParse(String),
    /// The table was written with other options.
    OptionsHashMismatch { expected: [u8; 32], actual: [u8; 32] },
    /// A manifest part could not be loaded.
    ManifestPartLoad { part_id: String, source: String },
}

/// [`OpenError`] over sequences of characters.
#[verifier::ext_equal]
pub enum OpenFault {
    Build(Seq<char>),
    PointerUnreadable(StorageFault),
    Pointer(CommitFault),
    Storage(StorageFault),
    ManifestListParse(Seq<char>),
    OptionsHashMismatch { expected: Seq<u8>, actual: Seq<u8> },
    ManifestPartLoad { part_id: Seq<char>, source: Seq<char> },
}

impl View for OpenError {
    type V = OpenFault;

    open spec fn view(&self) -> OpenFault {
        match self {
            OpenError::Build(text) => OpenFault::Build(text@),
            OpenError::PointerUnreadable(error) => OpenFault::PointerUnreadable(error@),
            OpenError::Pointer(error) => OpenFault::Pointer(error@),
            OpenError::Storage(error) => OpenFault::Storage(error@),
            OpenError::ManifestListParse(text) => OpenFault::ManifestListParse(text@),
            OpenError::OptionsHashMismatch { expected, actual } =>
                OpenFault::OptionsHashMismatch { expected: expected@, actual: actual@ },
            OpenError::ManifestPartLoad { part_id, source } => OpenFault::ManifestPartLoad {
                part_id: part_id@,
                source: source@,
            },
        }
    }
}

/// Errors that look the same are of one kind and have the same causes.
pub proof fn lemma_commit_errors_are_their_causes(a: CommitError, b: CommitError)
    requires
        a@ == b@,
    ensures
        a is PointerParse == b is PointerParse,
        a is Encode == b is Encode,
        a is Storage == b is Storage,
        a is WriteContentionExhausted == b is WriteContentionExhausted,
        a is SuperfileSpansPartition == b is SuperfileSpansPartition,
        a matches CommitError::PointerParse(text) ==> text@ == b->PointerParse_0@,
        a matches CommitError::Encode(text) ==> text@ == b->Encode_0@,
        a matches CommitError::Storage(error) ==> error@ == b->Storage_0@,
        a matches CommitError::SuperfileSpansPartition { detail } ==> detail@ == b->detail@,
{
}

/// Errors that look the same are of one kind and have the same causes.
pub proof fn lemma_open_errors_are_their_causes(a: OpenError, b: OpenError)
    requires
        a@ == b@,
    ensures
        a is Build == b is Build,
        a is PointerUnreadable == b is PointerUnreadable,
        a is Pointer == b is Pointer,
        a is Storage == b is Storage,
        a is ManifestListParse == b is ManifestListParse,
        a is OptionsHashMismatch == b is OptionsHashMismatch,
        a is ManifestPartLoad == b is ManifestPartLoad,
        a matches OpenError::Build(text) ==> text@ == b->Build_0@,
        a matches OpenError::PointerUnreadable(error) ==> error@ == b->PointerUnreadable_0@,
        a matches OpenError::Pointer(error) ==> error@ == b->Pointer_0@,
        a matches OpenError::Storage(error) ==> error@ == b->Storage_0@,
        a matches OpenError::ManifestListParse(text) ==> text@ == b->ManifestListParse_0@,
        a matches OpenError::OptionsHashMismatch { expected, actual } ==> expected@
            == b->expected@ && actual@ == b->actual@,
        a matches OpenError::ManifestPartLoad { part_id, source } ==> part_id@ == b->part_id@
            && source@ == b->source@,
{
}

/// Errors that look the same are of one kind and have the same texts.
pub proof fn lemma_query_errors_are_their_texts(a: QueryError, b: QueryError)
    requires
        a@ == b@,
    ensures
        a matches QueryError::ManifestLoad(text) ==> b is ManifestLoad && text@
            == b->ManifestLoad_0@,
        a matches QueryError::Parquet(text) ==> b is Parquet && text@ == b->Parquet_0@,
        a matches QueryError::Store(text) ==> b is Store && text@ == b->Store_0@,
        a matches QueryError::Execute(text) ==> b is Execute && text@ == b->Execute_0@,
{
}

} // verus!
