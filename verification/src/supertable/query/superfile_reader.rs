//! Which tier a superfile is read from: memory, the disk cache, or storage.

use vstd::prelude::*;
use vstd::string::StringExecFns;
use crate::storage::StorageError;
use crate::supertable::manifest::error::joined;
use crate::supertable::manifest::part::SuperfileUri;

verus! {

/// Why a superfile has no reader.
#[derive(Debug, Clone, PartialEq, Eq)]
pub enum ReaderCacheError {
    /// The tier does not hold the superfile.
    NotFound { uri: SuperfileUri },
    /// The superfile could not be opened.
    OpenFailed { source: String },
}

/// [`ReaderCacheError`] over sequences of characters.
#[verifier::ext_equal]
pub enum ReaderFault {
    NotFound { uri: u128 },
    OpenFailed { source: Seq<char> },
}

impl View for ReaderCacheError {
    type V = ReaderFault;

    open spec fn view(&self) -> ReaderFault {
        match self {
            ReaderCacheError::NotFound { uri } => ReaderFault::NotFound { uri: uri.0 },
            ReaderCacheError::OpenFailed { source } => ReaderFault::OpenFailed {
                source: source@,
            },
        }
    }
}

/// Why the disk cache has no reader, with its message.
#[derive(Debug, Clone, PartialEq, Eq)]
pub enum DiskCacheError {
    /// The superfile does not fit.
    BudgetExceeded(String),
    /// Something else.
    Failed(String),
}

/// Where to go on.
pub enum TierStep<R> {
    /// The reader.
    Found(R),
    /// Ask the disk cache.
    DiskCache,
    /// Have the disk cache read ranges, without keeping the superfile.
    RangeOnly,
    /// Fetch the object from storage, and open it.
    Storage,
}

/// Where to go on after memory was asked: a superfile that is not there is
/// looked for in the disk cache, or else in storage.
pub fn after_memory<R>(
    found: Result<R, ReaderCacheError>,
    has_disk_cache: bool,
    has_storage: bool,
    uri: SuperfileUri,
) -> (res: Result<TierStep<R>, ReaderCacheError>)
    ensures
        match found {
            Ok(reader) => res == Ok::<TierStep<R>, ReaderCacheError>(TierStep::Found(reader)),
            Err(ReaderCacheError::NotFound { .. }) => if has_disk_cache {
                res == Ok::<TierStep<R>, ReaderCacheError>(TierStep::DiskCache)
            } else if has_storage {
                res == Ok::<TierStep<R>, ReaderCacheError>(TierStep::Storage)
            } else {
                res == Err::<TierStep<R>, ReaderCacheError>(ReaderCacheError::NotFound { uri })
            },
            Err(e) => res == Err::<TierStep<R>, ReaderCacheError>(e),
        },
{
    match found {
        Ok(reader) => Ok(TierStep::Found(reader)),
        Err(ReaderCacheError::NotFound { .. }) => if has_disk_cache {
            Ok(TierStep::DiskCache)
        } else if has_storage {
            Ok(TierStep::Storage)
        } else {
            Err(ReaderCacheError::NotFound { uri })
        },
        Err(e) => Err(e),
    }
}

/// What a failure of the disk cache is reported as.
pub open spec fn disk_cache_fault(error: DiskCacheError) -> ReaderFault {
    ReaderFault::OpenFailed {
        source: "disk cache fetch: "@ + match error {
            DiskCacheError::BudgetExceeded(text) => text@,
            DiskCacheError::Failed(text) => text@,
        },
    }
}

/// What a failure of the disk cache is reported as.
fn cache_open_failed(error: DiskCacheError) -> (lifted: ReaderCacheError)
    ensures
        lifted@ == disk_cache_fault(error),
{
    let source = match error {
        DiskCacheError::BudgetExceeded(text) => joined("disk cache fetch: ", &text),
        DiskCacheError::Failed(text) => joined("disk cache fetch: ", &text),
    };
    ReaderCacheError::OpenFailed { source }
}

/// Where to go on after the disk cache was asked: what does not fit in it is
/// read range by range.
pub fn after_disk_cache<R>(found: Result<R, DiskCacheError>) -> (res: Result<
    TierStep<R>,
    ReaderCacheError,
>)
    ensures
        match found {
            Ok(reader) => res == Ok::<TierStep<R>, ReaderCacheError>(TierStep::Found(reader)),
            Err(DiskCacheError::BudgetExceeded(_)) => res == Ok::<TierStep<R>, ReaderCacheError>(
                TierStep::RangeOnly,
            ),
            Err(e) => res matches Err(lifted) && lifted@ == disk_cache_fault(e),
        },
{
    match found {
        Ok(reader) => Ok(TierStep::Found(reader)),
        Err(DiskCacheError::BudgetExceeded(_)) => Ok(TierStep::RangeOnly),
        Err(e) => Err(cache_open_failed(e)),
    }
}

/// The outcome of opening a superfile to be read range by range.
pub fn after_range_only<R>(found: Result<R, DiskCacheError>) -> (res: Result<R, ReaderCacheError>)
    ensures
        match found {
            Ok(reader) => res == Ok::<R, ReaderCacheError>(reader),
            Err(e) => res matches Err(lifted) && lifted@ == disk_cache_fault(e),
        },
{
    match found {
        Ok(reader) => Ok(reader),
        Err(e) => Err(cache_open_failed(e)),
    }
}

/// The outcome of a fetch from storage: the object, to be opened.
pub fn after_storage<B>(path: &str, fetched: Result<B, StorageError>) -> (res: Result<
    B,
    ReaderCacheError,
>)
    ensures
        match fetched {
            Ok(object) => res == Ok::<B, ReaderCacheError>(object),
            Err(e) => res matches Err(lifted) && lifted@ == (ReaderFault::OpenFailed {
                source: "storage fetch "@ + path@ + ": "@ + e@.message(),
            }),
        },
{
    match fetched {
        Ok(object) => Ok(object),
        Err(e) => {
            let mut source = "storage fetch ".to_owned();
            source.append(path);
            source.append(": ");
            let cause = e.message();
            source.append(&cause);
            Err(ReaderCacheError::OpenFailed { source })
        },
    }
}

/// A superfile that memory has is read from there. One that it does not have is
/// looked for in the disk cache, or in storage if there is no disk cache; and
/// only without both is it not found. Any other failure of memory is passed on.
pub proof fn lemma_tiers_in_turn<R>(
    found: Result<R, ReaderCacheError>,
    has_disk_cache: bool,
    has_storage: bool,
    uri: SuperfileUri,
    res: Result<TierStep<R>, ReaderCacheError>,
)
    requires
        call_ensures(after_memory, (found, has_disk_cache, has_storage, uri), res),
    ensures
        found is Ok ==> res is Ok && res->Ok_0 is Found && res->Ok_0->Found_0 == found->Ok_0,
        found is Err && found->Err_0 is NotFound ==> (res is Ok <==> has_disk_cache
            || has_storage),
        found is Err && found->Err_0 is NotFound && has_disk_cache ==> res->Ok_0 is DiskCache,
        found is Err && found->Err_0 is NotFound && !has_disk_cache && has_storage ==> res->Ok_0
            is Storage,
        found is Err && found->Err_0 is NotFound && res is Err ==> res->Err_0
            == (ReaderCacheError::NotFound { uri }),
        found is Err && !(found->Err_0 is NotFound) ==> res is Err && res->Err_0 == found->Err_0,
{
}

/// What the disk cache has no room for is read range by range; every other
/// failure of the cache fails the read.
pub proof fn lemma_too_large_for_the_cache<R>(
    found: Result<R, DiskCacheError>,
    res: Result<TierStep<R>, ReaderCacheError>,
)
    requires
        call_ensures(after_disk_cache, (found,), res),
    ensures
        found is Ok ==> res is Ok && res->Ok_0 is Found && res->Ok_0->Found_0 == found->Ok_0,
        found is Err && found->Err_0 is BudgetExceeded ==> res is Ok && res->Ok_0 is RangeOnly,
        found is Err && found->Err_0 is Failed ==> res is Err && res->Err_0 is OpenFailed,
{
}

} // verus!
