//! From the manifest parts that a query keeps to their superfiles.

use std::sync::Arc;
use vstd::prelude::*;
use crate::supertable::error::{QueryError, QueryFault};
use crate::supertable::manifest::error::joined;
use crate::supertable::manifest::part::{
    entries_view, EntryView, ManifestPart, PartView, SuperfileEntry,
};
use crate::supertable::manifest::snapshot::{
    append_shared, first_failed, lemma_first_failed_is_first, lemma_first_failed_stays,
    lemma_superfiles_of_parts, superfiles_of, Manifest,
};

verus! {

/// The parts over sequences.
pub open spec fn parts_view(parts: Seq<Arc<ManifestPart>>) -> Seq<PartView> {
    parts.map_values(|p: Arc<ManifestPart>| p@)
}

/// The parts that were loaded.
pub open spec fn loaded_parts(loaded: Seq<Result<Arc<ManifestPart>, String>>) -> Seq<PartView> {
    loaded.map_values(|l: Result<Arc<ManifestPart>, String>| l->Ok_0@)
}

/// The error for a part that was not loaded.
pub open spec fn part_fault(cause: Seq<char>) -> QueryFault {
    QueryFault::Store("part load: "@ + cause)
}

/// The parts that a query keeps, in their order, from the outcomes of their
/// loads; or the first failure.
pub fn load_kept_parts(loaded: Vec<Result<Arc<ManifestPart>, String>>) -> (res: Result<
    Vec<Arc<ManifestPart>>,
    QueryError,
>)
    ensures
        match first_failed(loaded@) {
            None => res matches Ok(parts) && parts_view(parts@) == loaded_parts(loaded@),
            Some(i) => res matches Err(e) && e@ == part_fault(loaded@[i]->Err_0@),
        },
{
    let ghost all = loaded@;
    let mut out: Vec<Arc<ManifestPart>> = Vec::new();
    assert(all.take(0) =~= Seq::empty());
    assert(parts_view(out@) =~= loaded_parts(all.take(0)));
    for load in it: loaded
        invariant
            it.seq() == all,
            first_failed(all.take(it.index() as int)) is None,
            parts_view(out@) == loaded_parts(all.take(it.index() as int)),
    {
        let ghost i = it.index() as int;
        assert(all.take(i + 1).drop_last() =~= all.take(i));
        match load {
            Ok(part) => {
                let ghost before = out@;
                out.push(part);
                assert(parts_view(out@) =~= parts_view(before).push(part@));
                assert(loaded_parts(all.take(i + 1)) =~= loaded_parts(all.take(i)).push(part@));
            },
            Err(cause) => {
                proof {
                    lemma_first_failed_stays(all, i + 1);
                }
                return Err(QueryError::Store(joined("part load: ", &cause)));
            },
        }
    }
    assert(all.take(all.len() as int) =~= all);
    Ok(out)
}

/// The superfiles of the parts, one part after the other.
pub fn flatten_segments(parts: &[Arc<ManifestPart>]) -> (flat: Vec<Arc<SuperfileEntry>>)
    ensures
        entries_view(flat@) == superfiles_of(parts_view(parts@)),
{
    let mut flat: Vec<Arc<SuperfileEntry>> = Vec::new();
    let ghost views = parts_view(parts@);
    let mut i: usize = 0;
    assert(views.take(0) =~= Seq::empty());
    assert(entries_view(flat@) =~= Seq::<EntryView>::empty());
    while i < parts.len()
        invariant
            i <= parts@.len(),
            views == parts_view(parts@),
            entries_view(flat@) == superfiles_of(views.take(i as int)),
        decreases parts.len() - i,
    {
        assert(views.take(i + 1).drop_last() =~= views.take(i as int));
        append_shared(&mut flat, &parts[i].superfiles);
        i = i + 1;
    }
    assert(views.take(views.len() as int) =~= views);
    flat
}

/// The superfiles of the parts that a query keeps, from the outcomes of their
/// loads; or the first failure.
pub fn load_and_flatten(loaded: Vec<Result<Arc<ManifestPart>, String>>) -> (res: Result<
    Vec<Arc<SuperfileEntry>>,
    QueryError,
>)
    ensures
        match first_failed(loaded@) {
            None => res matches Ok(flat) && entries_view(flat@) == superfiles_of(
                loaded_parts(loaded@),
            ),
            Some(i) => res matches Err(e) && e@ == part_fault(loaded@[i]->Err_0@),
        },
{
    let parts = load_kept_parts(loaded)?;
    Ok(flatten_segments(&parts))
}

/// The superfiles of a snapshot without a manifest list.
pub fn fallback_to_flat_segments(manifest: &Manifest) -> (flat: Vec<Arc<SuperfileEntry>>)
    ensures
        entries_view(flat@) == manifest@.superfiles,
{
    let mut flat: Vec<Arc<SuperfileEntry>> = Vec::new();
    append_shared(&mut flat, &manifest.superfiles);
    assert(entries_view(flat@) =~= manifest@.superfiles);
    flat
}

/// A query sees superfiles exactly if all parts that it keeps were loaded: those
/// of the first part, then of the second, and so on. If one was not, the query
/// fails.
pub proof fn lemma_query_sees_every_part(
    loaded: Vec<Result<Arc<ManifestPart>, String>>,
    res: Result<Vec<Arc<SuperfileEntry>>, QueryError>,
)
    requires
        call_ensures(load_and_flatten, (loaded,), res),
    ensures
        res is Ok <==> forall|i: int| 0 <= i < loaded@.len() ==> (#[trigger] loaded@[i]) is Ok,
        res matches Ok(flat) ==> entries_view(flat@) == loaded@.map_values(
            |l: Result<Arc<ManifestPart>, String>| l->Ok_0@.superfiles,
        ).flatten(),
        res matches Err(e) ==> e is Store,
{
    lemma_first_failed_is_first(loaded@);
    lemma_superfiles_of_parts(loaded_parts(loaded@));
    assert(loaded_parts(loaded@).map_values(|p: PartView| p.superfiles) =~= loaded@.map_values(
        |l: Result<Arc<ManifestPart>, String>| l->Ok_0@.superfiles,
    ));
}

/// The superfiles of parts are those of each part in turn; and of a snapshot
/// without a list, those that it lists itself.
pub proof fn lemma_flat_superfiles(
    parts: &[Arc<ManifestPart>],
    flat: Vec<Arc<SuperfileEntry>>,
    manifest: Manifest,
    own: Vec<Arc<SuperfileEntry>>,
)
    requires
        call_ensures(flatten_segments, (parts,), flat),
        call_ensures(fallback_to_flat_segments, (&manifest,), own),
    ensures
        entries_view(flat@) == parts@.map_values(
            |p: Arc<ManifestPart>| entries_view(p.superfiles@),
        ).flatten(),
        entries_view(own@) == entries_view(manifest.superfiles@),
{
    lemma_superfiles_of_parts(parts_view(parts@));
    assert(parts_view(parts@).map_values(|p: PartView| p.superfiles) =~= parts@.map_values(
        |p: Arc<ManifestPart>| entries_view(p.superfiles@),
    ));
}

} // verus!
