use infino::storage::StorageError;
use infino::supertable::error::QueryError;
use infino::supertable::mutations::{
    CommitError, CommitResult, MutationError, OperationOutcome, WalId, MAX_TARGETS_PER_MUTATION,
};

fn outcome(id: u128, matched: usize) -> OperationOutcome {
    OperationOutcome { wal_id: WalId(id), matched, n_tombstoned: matched, n_not_found: 0 }
}

#[test]
fn a_commit_lists_the_logs_of_its_outcomes_in_order() {
    let result = CommitResult::from_outcomes(vec![outcome(9, 1), outcome(3, 2), outcome(5, 0)]);
    assert_eq!(result.wal_ids, vec![WalId(9), WalId(3), WalId(5)]);
    assert_eq!(result.outcomes.len(), 3);
    assert_eq!(result.outcomes[1].matched, 2);

    let none = CommitResult::from_outcomes(Vec::new());
    assert!(none.wal_ids.is_empty());
    assert!(none.outcomes.is_empty());
}

#[test]
fn mutation_errors_say_what_went_wrong() {
    let cases = vec![
        (
            MutationError::PredicateEval(QueryError::Execute("no such column".to_string())),
            "predicate evaluation failed: no such column",
        ),
        (
            MutationError::MatchCountExceedsCap { matched: 100_001, cap: MAX_TARGETS_PER_MUTATION },
            "predicate matched 100001 rows; mutation cap is 100000",
        ),
        (
            MutationError::CardinalityMismatch { matched: 3, new_rows: 2 },
            "cardinality mismatch: predicate matched 3 rows; new_rows has 2",
        ),
        (
            MutationError::SchemaMismatch("extra column".to_string()),
            "new_rows schema does not match the supertable's user schema: extra column",
        ),
        (
            MutationError::NoStorageAttached,
            "supertable has no storage attached; delete / update requires durable storage",
        ),
        (
            MutationError::Storage(StorageError::NotFound { uri: "a/b".to_string() }),
            "storage error: not found: a/b",
        ),
        (MutationError::WalStore("torn".to_string()), "WAL store error: torn"),
        (MutationError::AppendPhase("full".to_string()), "append phase failed: full"),
        (MutationError::TombstonePhase("gone".to_string()), "tombstone phase failed: gone"),
    ];
    for (error, message) in cases {
        assert_eq!(error.message(), message);
    }
}

#[test]
fn commit_errors_say_how_far_the_commit_came() {
    assert_eq!(
        CommitError::AppendFlush("disk".to_string()).message(),
        "append-phase commit failed: disk"
    );
    let partial = CommitError::PartialCommit {
        committed_wal_ids: vec![WalId(1), WalId(2)],
        committed: 2,
        total: 5,
        cause: Box::new(MutationError::WalStore("torn".to_string())),
    };
    assert_eq!(
        partial.message(),
        "partial commit: 2 of 5 mutations completed before WAL store error: torn"
    );
}
