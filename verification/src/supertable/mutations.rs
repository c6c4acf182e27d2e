//! Values and errors of updates and deletes.
//!
//! An update or delete is buffered on the writer and carried out by the next
//! commit; until that returns, nothing of it is durable.

use vstd::prelude::*;
use vstd::string::StringExecFns;
use crate::storage::StorageError;
use crate::supertable::error::QueryError;
use crate::supertable::manifest::error::joined;
use crate::text::{decimal, push_decimal};

verus! {

/// Identifier of the log of one mutation.
#[derive(Debug, Clone, Copy, PartialEq, Eq, Hash, Structural)]
pub struct WalId(pub u128);

/// Outcome of one update or delete.
#[derive(Debug, Clone, Copy, PartialEq, Eq, Structural)]
pub struct OperationOutcome {
    /// Log that drove the mutation.
    pub wal_id: WalId,
    /// Rows that the predicate matched when the mutation was called.
    pub matched: usize,
    /// Rows that were deleted.
    pub n_tombstoned: usize,
    /// Rows that were gone when the commit came to them.
    pub n_not_found: usize,
}

/// Most rows that one mutation may match.
pub const MAX_TARGETS_PER_MUTATION: usize = 100_000;

/// Why an update or delete failed. Nothing is left behind.
#[derive(Debug, Clone, PartialEq, Eq)]
pub enum MutationError {
    /// The predicate could not be evaluated.
    PredicateEval(QueryError),
    /// The predicate matched more rows than one mutation may.
    MatchCountExceedsCap { matched: usize, cap: usize },
    /// An update has another number of new rows than the predicate matched.
    CardinalityMismatch { matched: usize, new_rows: usize },
    /// The new rows have another schema than the table.
    SchemaMismatch(String),
    /// The table has no durable storage.
    NoStorageAttached,
    /// Storage failed.
    Storage(StorageError),
    /// The log could not be read or written.
    WalStore(String),
    /// The new rows could not be written.
    AppendPhase(String),
    /// The old rows could not be deleted.
    TombstonePhase(String),
}

/// What an update matched; the commit carries it out.
#[derive(Debug, Clone, Copy, PartialEq, Eq, Structural)]
pub struct PendingUpdate {
    pub matched: usize,
}

/// What a delete matched; the commit carries it out.
#[derive(Debug, Clone, Copy, PartialEq, Eq, Structural)]
pub struct PendingDelete {
    pub matched: usize,
}

/// Outcome of a commit: one entry for each buffered mutation, in order.
#[derive(Debug, Clone, PartialEq, Eq)]
pub struct CommitResult {
    pub wal_ids: Vec<WalId>,
    pub outcomes: Vec<OperationOutcome>,
}

/// Why a commit failed.
#[derive(Debug, Clone, PartialEq, Eq)]
pub enum CommitError {
    /// The buffered rows could not be written; the buffer is kept.
    AppendFlush(String),
    /// A mutation failed after others had become durable.
    PartialCommit {
        committed_wal_ids: Vec<WalId>,
        committed: usize,
        total: usize,
        cause: Box<MutationError>,
    },
}

/// The message of a query error.
pub open spec fn query_message(error: QueryError) -> Seq<char> {
    match error {
        QueryError::ManifestLoad(text) => text@,
        QueryError::Parquet(text) => text@,
        QueryError::Store(text) => text@,
        QueryError::Execute(text) => text@,
    }
}

impl CommitResult {
    /// The result of a commit with these outcomes: the logs are those of the
    /// outcomes, in the same order.
    pub fn from_outcomes(outcomes: Vec<OperationOutcome>) -> (result: Self)
        ensures
            result.outcomes == outcomes,
            result.wal_ids@ == outcomes@.map_values(|o: OperationOutcome| o.wal_id),
    {
        let mut wal_ids: Vec<WalId> = Vec::new();
        let mut i: usize = 0;
        while i < outcomes.len()
            invariant
                i <= outcomes@.len(),
                wal_ids@ =~= outcomes@.take(i as int).map_values(|o: OperationOutcome| o.wal_id),
            decreases outcomes.len() - i,
        {
            wal_ids.push(outcomes[i].wal_id);
            i = i + 1;
        }
        assert(outcomes@.take(outcomes@.len() as int) =~= outcomes@);
        CommitResult { wal_ids, outcomes }
    }
}

impl MutationError {
    pub open spec fn message_spec(&self) -> Seq<char> {
        match self {
            MutationError::PredicateEval(e) => "predicate evaluation failed: "@ + query_message(*e),
            MutationError::MatchCountExceedsCap { matched, cap } => "predicate matched "@ + decimal(
                *matched as nat,
            ) + " rows; mutation cap is "@ + decimal(*cap as nat),
            MutationError::CardinalityMismatch { matched, new_rows } =>
                "cardinality mismatch: predicate matched "@ + decimal(*matched as nat)
                    + " rows; new_rows has "@ + decimal(*new_rows as nat),
            MutationError::SchemaMismatch(text) =>
                "new_rows schema does not match the supertable's user schema: "@ + text@,
            MutationError::NoStorageAttached =>
                "supertable has no storage attached; delete / update requires durable storage"@,
            MutationError::Storage(e) => "storage error: "@ + e@.message(),
            MutationError::WalStore(text) => "WAL store error: "@ + text@,
            MutationError::AppendPhase(text) => "append phase failed: "@ + text@,
            MutationError::TombstonePhase(text) => "tombstone phase failed: "@ + text@,
        }
    }

    /// The message for this error.
    pub fn message(&self) -> (text: String)
        ensures
            text@ == self.message_spec(),
    {
        match self {
            MutationError::PredicateEval(e) => joined(
                "predicate evaluation failed: ",
                match e {
                    QueryError::ManifestLoad(text) => text,
                    QueryError::Parquet(text) => text,
                    QueryError::Store(text) => text,
                    QueryError::Execute(text) => text,
                },
            ),
            MutationError::MatchCountExceedsCap { matched, cap } => {
                let mut text = "predicate matched ".to_owned();
                push_decimal(&mut text, *matched as u64);
                text.append(" rows; mutation cap is ");
                push_decimal(&mut text, *cap as u64);
                text
            },
            MutationError::CardinalityMismatch { matched, new_rows } => {
                let mut text = "cardinality mismatch: predicate matched ".to_owned();
                push_decimal(&mut text, *matched as u64);
                text.append(" rows; new_rows has ");
                push_decimal(&mut text, *new_rows as u64);
                text
            },
            MutationError::SchemaMismatch(text) => joined(
                "new_rows schema does not match the supertable's user schema: ",
                text,
            ),
            MutationError::NoStorageAttached =>
                "supertable has no storage attached; delete / update requires durable storage".to_owned(),
            MutationError::Storage(e) => {
                let inner = e.message();
                joined("storage error: ", &inner)
            },
            MutationError::WalStore(text) => joined("WAL store error: ", text),
            MutationError::AppendPhase(text) => joined("append phase failed: ", text),
            MutationError::TombstonePhase(text) => joined("tombstone phase failed: ", text),
        }
    }
}

impl CommitError {
    pub open spec fn message_spec(&self) -> Seq<char> {
        match self {
            CommitError::AppendFlush(text) => "append-phase commit failed: "@ + text@,
            CommitError::PartialCommit { committed_wal_ids: _, committed, total, cause } =>
                "partial commit: "@ + decimal(*committed as nat) + " of "@ + decimal(*total as nat)
                    + " mutations completed before "@ + cause.message_spec(),
        }
    }

    /// The message for this error.
    pub fn message(&self) -> (text: String)
        ensures
            text@ == self.message_spec(),
    {
        match self {
            CommitError::AppendFlush(text) => joined("append-phase commit failed: ", text),
            CommitError::PartialCommit { committed_wal_ids: _, committed, total, cause } => {
                let mut text = "partial commit: ".to_owned();
                push_decimal(&mut text, *committed as u64);
                text.append(" of ");
                push_decimal(&mut text, *total as u64);
                text.append(" mutations completed before ");
                let inner = cause.message();
                text.append(&inner);
                text
            },
        }
    }
}

/// A commit names the log of each mutation, in their order.
pub proof fn lemma_logs_are_those_of_the_outcomes(
    outcomes: Vec<OperationOutcome>,
    result: CommitResult,
    i: int,
)
    requires
        call_ensures(CommitResult::from_outcomes, (outcomes,), result),
    ensures
        result.outcomes@ == outcomes@,
        result.wal_ids@.len() == outcomes@.len(),
        0 <= i < outcomes@.len() ==> result.wal_ids@[i] == outcomes@[i].wal_id,
{
}

} // verus!
