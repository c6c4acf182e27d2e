//! Nearest neighbours over the superfiles of a snapshot.
//!
//! Every superfile's clusters are ranked together, and only the closest ones
//! are searched, so that a superfile far from the query is not touched. What
//! each superfile finds is merged into the closest of all. Scores are the bits
//! of distances: smaller is closer.

use std::collections::HashMap;
use std::sync::Arc;
use roaring::RoaringBitmap;
use vstd::prelude::*;
use vstd::std_specs::hash::group_hash_axioms;
use crate::order::{
    comes_before, holds_position, holds_positions, lemma_sorted_order, lemma_sorted_order_unique,
    sort_positions, sorted_order,
};
use crate::superfile::vector::distance::{
    has_nan_bits, is_less, is_nan, less, order_key, score_key, sort_key, Metric,
};
use crate::supertable::error::{QueryError, QueryFault};
use crate::supertable::manifest::error::joined;
use crate::supertable::manifest::part::{entries_view, EntryView, SuperfileEntry, SuperfileUri};
use crate::supertable::query::{BoolMode, SuperfileHit};
use crate::supertable::tombstones::bitmap::{
    bitmap_contains, bitmap_contents, bitmap_ids, bitmap_insert, bitmap_is_empty, bitmap_of,
    bitmap_subtract, empty_bitmap, lists_ascending,
};
use crate::supertable::tombstones::cache::SidecarCacheError;
use crate::text::same_text;

verus! {

/// A text predicate: neighbours are ranked only among the rows that match it.
#[derive(Debug, Clone, Copy)]
pub struct VectorFilter<'a> {
    /// The column that is matched.
    pub column: &'a str,
    /// The text whose tokens are matched.
    pub query: &'a str,
    /// Whether every token has to match, or any.
    pub mode: BoolMode,
}

// ---- What a search does next ------------------------------------------------

/// How the rows of a search are restricted.
#[derive(Debug, Clone, Copy, PartialEq, Eq, Structural)]
pub enum FilterKind {
    Unfiltered,
    /// To the rows that match a text predicate.
    Text,
    /// To the rows that a plan admits.
    Plan,
}

/// What a search does next.
#[derive(Debug, Clone, Copy, PartialEq, Eq, Structural)]
pub enum SearchStep {
    /// It has found nothing.
    Finish,
    /// It asks for the superfiles that may hold neighbours.
    Prune,
    /// It takes the predicate apart into tokens.
    Tokenize,
    /// It asks each superfile which of its rows are admitted.
    Candidates,
    /// It searches the superfiles.
    FanOut,
}

/// A search for `k` neighbours begins.
pub fn begin_search(k: usize) -> (step: SearchStep)
    ensures
        step == if k == 0 {
            SearchStep::Finish
        } else {
            SearchStep::Prune
        },
{
    if k == 0 {
        SearchStep::Finish
    } else {
        SearchStep::Prune
    }
}

/// The superfiles are known that may hold neighbours.
pub fn after_pruning(kind: FilterKind, pruned: Result<usize, String>) -> (res: Result<
    SearchStep,
    QueryError,
>)
    ensures
        match pruned {
            Err(text) => res == Err::<SearchStep, QueryError>(QueryError::ManifestLoad(text)),
            Ok(n) => res == Ok::<SearchStep, QueryError>(
                if n == 0 {
                    SearchStep::Finish
                } else {
                    match kind {
                        FilterKind::Unfiltered => SearchStep::FanOut,
                        FilterKind::Text => SearchStep::Tokenize,
                        FilterKind::Plan => SearchStep::Candidates,
                    }
                },
            ),
        },
{
    match pruned {
        Err(text) => Err(QueryError::ManifestLoad(text)),
        Ok(n) => {
            if n == 0 {
                return Ok(SearchStep::Finish);
            }
            match kind {
                FilterKind::Unfiltered => Ok(SearchStep::FanOut),
                FilterKind::Text => Ok(SearchStep::Tokenize),
                FilterKind::Plan => Ok(SearchStep::Candidates),
            }
        },
    }
}

/// The predicate is taken apart, if the table has a tokenizer. Without tokens
/// no row matches.
pub fn after_tokens(n_tokens: Option<usize>) -> (step: SearchStep)
    ensures
        step == match n_tokens {
            Some(n) if n > 0 => SearchStep::Candidates,
            _ => SearchStep::Finish,
        },
{
    match n_tokens {
        Some(n) => if n > 0 {
            SearchStep::Candidates
        } else {
            SearchStep::Finish
        },
        None => SearchStep::Finish,
    }
}

/// It is known which rows are admitted.
pub fn after_candidates(allow: &AllowSets) -> (step: SearchStep)
    ensures
        step == if allow@.dom().len() == 0 {
            SearchStep::Finish
        } else {
            SearchStep::FanOut
        },
{
    if allow.len() == 0 {
        SearchStep::Finish
    } else {
        SearchStep::FanOut
    }
}

/// The metric of the column, as the table was set up; the squared Euclidean
/// distance of a column that it does not know.
pub open spec fn metric_spec(columns: Seq<(String, Metric)>, column: Seq<char>) -> Metric
    decreases columns.len(),
{
    if columns.len() == 0 {
        Metric::L2Sq
    } else if columns[0].0@ == column {
        columns[0].1
    } else {
        metric_spec(columns.subrange(1, columns.len() as int), column)
    }
}

/// The metric of the column.
pub fn metric_of(columns: &[(String, Metric)], column: &str) -> (metric: Metric)
    ensures
        metric == metric_spec(columns@, column@),
{
    let mut i: usize = 0;
    assert(columns@.skip(0) =~= columns@);
    while i < columns.len()
        invariant
            i <= columns@.len(),
            metric_spec(columns@, column@) == metric_spec(columns@.skip(i as int), column@),
        decreases columns.len() - i,
    {
        proof {
            let rest = columns@.skip(i as int);
            assert(rest[0] == columns@[i as int]);
            assert(rest.subrange(1, rest.len() as int) =~= columns@.skip(i + 1));
        }
        if same_text(&columns[i].0, column) {
            return columns[i].1;
        }
        i = i + 1;
    }
    Metric::L2Sq
}

// ---- Which rows are admitted ------------------------------------------------

/// The admitted rows of each superfile. A superfile without any is not in it.
pub type AllowSets = HashMap<u128, Arc<RoaringBitmap>>;

/// [`AllowSets`] over sets.
pub open spec fn allow_view(sets: Map<u128, Arc<RoaringBitmap>>) -> Map<u128, Set<u32>> {
    sets.map_values(|bitmap: Arc<RoaringBitmap>| bitmap_contents(*bitmap))
}

/// The rows that match, as a set.
pub fn matching_rows(docs: &[u32]) -> (bitmap: RoaringBitmap)
    ensures
        bitmap_contents(bitmap) == docs@.to_set(),
{
    bitmap_of(docs)
}

/// The rows that a plan admits. A plan that turns out to admit rows without
/// bound admits none here.
pub fn planned_rows(evaluated: Option<RoaringBitmap>) -> (bitmap: RoaringBitmap)
    ensures
        bitmap_contents(bitmap) == match evaluated {
            Some(rows) => bitmap_contents(rows),
            None => Set::empty(),
        },
{
    match evaluated {
        Some(rows) => rows,
        None => empty_bitmap(),
    }
}

/// Takes the deleted rows out of the admitted ones. `deleted` is what the
/// cache says, if the table has one.
pub fn subtract_tombstones(
    rows: &mut RoaringBitmap,
    deleted: Option<Result<Arc<RoaringBitmap>, SidecarCacheError>>,
) -> (res: Result<(), QueryError>)
    ensures
        match deleted {
            None => res is Ok && bitmap_contents(*final(rows)) == bitmap_contents(*old(rows)),
            Some(Ok(gone)) => res is Ok && bitmap_contents(*final(rows)) == bitmap_contents(
                *old(rows),
            ).difference(bitmap_contents(*gone)),
            Some(Err(e)) => (res matches Err(lifted) && lifted@ == QueryFault::Store(
                "tombstone cache: "@ + e.message_spec(),
            )) && bitmap_contents(*final(rows)) == bitmap_contents(*old(rows)),
        },
{
    match deleted {
        None => Ok(()),
        Some(Ok(gone)) => {
            if !bitmap_is_empty(&gone) {
                bitmap_subtract(rows, &gone);
            } else {
                assert(bitmap_contents(*rows) =~= bitmap_contents(*rows).difference(
                    bitmap_contents(*gone),
                ));
            }
            Ok(())
        },
        Some(Err(e)) => {
            let cause = e.message();
            Err(QueryError::Store(joined("tombstone cache: ", &cause)))
        },
    }
}

/// The hits that are not deleted, in their order.
pub open spec fn surviving(hits: Seq<SuperfileHit>, gone: Set<u32>) -> Seq<SuperfileHit>
    decreases hits.len(),
{
    if hits.len() == 0 {
        Seq::empty()
    } else {
        let rest = surviving(hits.drop_last(), gone);
        if gone.contains(hits.last().local_doc_id) {
            rest
        } else {
            rest.push(hits.last())
        }
    }
}

/// No deleted row is among the surviving hits, and every other hit is.
pub proof fn lemma_deleted_rows_are_no_hits(
    hits: Seq<SuperfileHit>,
    gone: Set<u32>,
    hit: SuperfileHit,
)
    ensures
        surviving(hits, gone).contains(hit) <==> hits.contains(hit) && !gone.contains(
            hit.local_doc_id,
        ),
    decreases hits.len(),
{
    if hits.len() > 0 {
        let rest = hits.drop_last();
        lemma_deleted_rows_are_no_hits(rest, gone, hit);
        assert(hits =~= rest.push(hits.last()));
        let kept = surviving(rest, gone);
        let all = surviving(hits, gone);
        if kept.contains(hit) {
            let k = choose|k: int| 0 <= k < kept.len() && kept[k] == hit;
            assert(all[k] == hit);
        }
        if rest.contains(hit) {
            let k = choose|k: int| 0 <= k < rest.len() && rest[k] == hit;
            assert(hits[k] == hit);
        }
        if hits.last() == hit {
            assert(hits[hits.len() - 1] == hit);
            if !gone.contains(hit.local_doc_id) {
                assert(all[all.len() - 1] == hit);
            }
        } else {
            if hits.contains(hit) {
                let k = choose|k: int| 0 <= k < hits.len() && hits[k] == hit;
                assert(rest[k] == hit);
            }
            if all.contains(hit) {
                let k = choose|k: int| 0 <= k < all.len() && all[k] == hit;
                assert(kept[k] == hit);
            }
        }
    } else {
        assert(!hits.contains(hit));
        assert(!surviving(hits, gone).contains(hit));
    }
}

/// Drops the hits that are deleted. `deleted` is what the cache says, if the
/// table has one.
pub fn apply_tombstone_filter(
    hits: &mut Vec<SuperfileHit>,
    deleted: Option<Result<Arc<RoaringBitmap>, SidecarCacheError>>,
) -> (res: Result<(), QueryError>)
    ensures
        match deleted {
            None => res is Ok && final(hits)@ == old(hits)@,
            Some(Ok(gone)) => res is Ok && final(hits)@ == surviving(
                old(hits)@,
                bitmap_contents(*gone),
            ),
            Some(Err(e)) => (res matches Err(lifted) && lifted@ == QueryFault::Store(
                "tombstone cache: "@ + e.message_spec(),
            )) && final(hits)@ == old(hits)@,
        },
{
    match deleted {
        None => Ok(()),
        Some(Ok(gone)) => {
            let ghost all = hits@;
            let mut kept: Vec<SuperfileHit> = Vec::new();
            let mut i: usize = 0;
            assert(all.take(0) =~= Seq::empty());
            while i < hits.len()
                invariant
                    i <= hits@.len(),
                    hits@ == all,
                    kept@ == surviving(all.take(i as int), bitmap_contents(*gone)),
                decreases hits.len() - i,
            {
                assert(all.take(i + 1).drop_last() =~= all.take(i as int));
                let hit = hits[i];
                if !bitmap_contains(&gone, hit.local_doc_id) {
                    kept.push(hit);
                }
                i = i + 1;
            }
            assert(all.take(all.len() as int) =~= all);
            *hits = kept;
            Ok(())
        },
        Some(Err(e)) => {
            let cause = e.message();
            Err(QueryError::Store(joined("tombstone cache: ", &cause)))
        },
    }
}

/// The admitted rows by superfile; a superfile without any is left out.
pub open spec fn collected(pairs: Seq<(u128, RoaringBitmap)>) -> Map<u128, Set<u32>>
    decreases pairs.len(),
{
    if pairs.len() == 0 {
        Map::empty()
    } else {
        let rest = collected(pairs.drop_last());
        let (uri, rows) = pairs.last();
        if bitmap_contents(rows) == Set::<u32>::empty() {
            rest
        } else {
            rest.insert(uri, bitmap_contents(rows))
        }
    }
}

/// The admitted rows by superfile.
pub fn allow_sets(pairs: Vec<(u128, RoaringBitmap)>) -> (sets: AllowSets)
    ensures
        allow_view(sets@) == collected(pairs@),
{
    broadcast use group_hash_axioms;

    let ghost all = pairs@;
    let mut sets: AllowSets = HashMap::new();
    assert(all.take(0) =~= Seq::empty());
    assert(allow_view(sets@) =~= Map::empty());
    for pair in it: pairs
        invariant
            it.seq() == all,
            allow_view(sets@) == collected(all.take(it.index() as int)),
    {
        assert(all.take(it.index() + 1).drop_last() =~= all.take(it.index() as int));
        let (uri, rows) = pair;
        if !bitmap_is_empty(&rows) {
            let ghost before = sets@;
            sets.insert(uri, Arc::new(rows));
            assert(allow_view(sets@) =~= allow_view(before).insert(uri, bitmap_contents(rows)));
        }
    }
    assert(all.take(all.len() as int) =~= all);
    sets
}

/// The number of the first row of superfile `i`, counting the rows of all
/// superfiles.
pub open spec fn first_row(superfiles: Seq<EntryView>, i: int) -> int
    decreases i,
{
    if i <= 0 {
        0
    } else {
        let end = first_row(superfiles, i - 1) + superfiles[i - 1].n_docs;
        if end > u64::MAX {
            u64::MAX as int
        } else {
            end
        }
    }
}

/// The rows from `base` up to `end` among `rows`, counted from `base`.
pub open spec fn local_rows(rows: Set<u32>, base: int, end: int) -> Set<u32> {
    Set::new(
        |x: u32|
            base + x < end && base + x <= u32::MAX && rows.contains((base + x) as u32),
    )
}

/// The admitted rows of the first `n` superfiles.
pub open spec fn local_sets(superfiles: Seq<EntryView>, n: int, rows: Set<u32>) -> Map<
    u128,
    Set<u32>,
>
    decreases n,
{
    if n <= 0 {
        Map::empty()
    } else {
        let rest = local_sets(superfiles, n - 1, rows);
        let local = local_rows(rows, first_row(superfiles, n - 1), first_row(superfiles, n));
        if local == Set::<u32>::empty() {
            rest
        } else {
            rest.insert(superfiles[n - 1].uri, local)
        }
    }
}

/// The admitted rows by superfile, from rows that are counted over all
/// superfiles.
pub fn local_allow_sets(superfiles: &Vec<Arc<SuperfileEntry>>, allow_global: &RoaringBitmap) -> (sets:
    AllowSets)
    ensures
        allow_view(sets@) == local_sets(
            entries_view(superfiles@),
            superfiles@.len() as int,
            bitmap_contents(*allow_global),
        ),
{
    broadcast use group_hash_axioms;

    let ghost views = entries_view(superfiles@);
    let ghost rows = bitmap_contents(*allow_global);
    let ids = bitmap_ids(allow_global);
    let mut sets: AllowSets = HashMap::new();
    let mut base: u64 = 0;
    let mut next: usize = 0;
    let mut i: usize = 0;
    assert(allow_view(sets@) =~= Map::empty());
    while i < superfiles.len()
        invariant
            i <= superfiles@.len(),
            views == entries_view(superfiles@),
            rows == bitmap_contents(*allow_global),
            lists_ascending(rows, ids@),
            next <= ids@.len(),
            base == first_row(views, i as int),
            forall|k: int| 0 <= k < next ==> (#[trigger] ids@[k]) < base,
            forall|k: int| next <= k < ids@.len() ==> (#[trigger] ids@[k]) >= base,
            allow_view(sets@) == local_sets(views, i as int, rows),
        decreases superfiles.len() - i,
    {
        let entry = &superfiles[i];
        assert(views[i as int] == entry@);
        let end = base.saturating_add(entry.n_docs);
        let mut local = empty_bitmap();
        let ghost from = next;
        while next < ids.len() && (ids[next] as u64) < end
            invariant
                from <= next <= ids@.len(),
                lists_ascending(rows, ids@),
                forall|k: int| 0 <= k < from ==> (#[trigger] ids@[k]) < base,
                forall|k: int| from <= k < ids@.len() ==> (#[trigger] ids@[k]) >= base,
                forall|k: int| from <= k < next ==> (#[trigger] ids@[k]) < end,
                forall|x: u32| #[trigger]
                    bitmap_contents(local).contains(x) <==> exists|k: int|
                        from <= k < next && #[trigger] ids@[k] == base + x,
            decreases ids.len() - next,
        {
            let ghost before = bitmap_contents(local);
            let id = (ids[next] as u64 - base) as u32;
            bitmap_insert(&mut local, id);
            proof {
                assert(ids@[next as int] == base + id);
                assert forall|x: u32| #[trigger]
                    bitmap_contents(local).contains(x) <==> exists|k: int|
                        from <= k < next + 1 && #[trigger] ids@[k] == base + x by {
                    if before.contains(x) {
                        let k = choose|k: int|
                            from <= k < next && #[trigger] ids@[k] == base + x;
                        assert(ids@[k] == base + x);
                    }
                }
            }
            next = next + 1;
        }
        proof {
            let want = local_rows(rows, base as int, end as int);
            assert forall|x: u32| #[trigger] bitmap_contents(local).contains(x) <==> want.contains(
                x,
            ) by {
                if want.contains(x) {
                    let id = (base + x) as u32;
                    assert(rows.contains(id));
                    let k = choose|k: int| 0 <= k < ids@.len() && ids@[k] == id;
                    assert(ids@[k] == base + x);
                }
                if bitmap_contents(local).contains(x) {
                    let k = choose|k: int| from <= k < next && #[trigger] ids@[k] == base + x;
                    assert(rows.contains(ids@[k]));
                }
            }
            assert(bitmap_contents(local) =~= want);
            assert(end == first_row(views, i + 1));
            assert forall|k: int| next <= k < ids@.len() implies (#[trigger] ids@[k]) >= end by {
                if k > next {
                    assert(ids@[next as int] < ids@[k]);
                }
            }
        }
        if !bitmap_is_empty(&local) {
            let ghost before = sets@;
            sets.insert(entry.uri.0, Arc::new(local));
            assert(allow_view(sets@) =~= allow_view(before).insert(
                entry.uri.0,
                bitmap_contents(local),
            ));
        }
        base = end;
        i = i + 1;
    }
    sets
}

/// How many rows the first `i` superfiles have.
pub open spec fn rows_before(superfiles: Seq<Arc<SuperfileEntry>>, i: int) -> int
    decreases i,
{
    if i <= 0 {
        0
    } else {
        rows_before(superfiles, i - 1) + superfiles[i - 1].n_docs
    }
}

proof fn lemma_first_row(superfiles: Seq<Arc<SuperfileEntry>>, i: int)
    requires
        0 <= i <= superfiles.len(),
    ensures
        first_row(entries_view(superfiles), i) == if rows_before(superfiles, i) > u64::MAX {
            u64::MAX as int
        } else {
            rows_before(superfiles, i)
        },
        rows_before(superfiles, i) >= 0,
    decreases i,
{
    if i > 0 {
        lemma_first_row(superfiles, i - 1);
        assert(entries_view(superfiles)[i - 1] == superfiles[i - 1]@);
    }
}

proof fn lemma_local_sets(superfiles: Seq<EntryView>, n: int, rows: Set<u32>, i: int)
    requires
        0 <= i < n <= superfiles.len(),
        forall|a: int, b: int|
            0 <= a < b < superfiles.len() ==> (#[trigger] superfiles[a]).uri != (
            #[trigger] superfiles[b]).uri,
    ensures
        ({
            let local = local_rows(rows, first_row(superfiles, i), first_row(superfiles, i + 1));
            let sets = local_sets(superfiles, n, rows);
            &&& forall|x: u32| #[trigger]
                local.contains(x) ==> sets.contains_key(superfiles[i].uri)
            &&& sets.contains_key(superfiles[i].uri) ==> sets[superfiles[i].uri] == local
        }),
    decreases n,
{
    lemma_local_keys(superfiles, n - 1, rows);
    let sets = local_sets(superfiles, n, rows);
    if i < n - 1 {
        lemma_local_sets(superfiles, n - 1, rows, i);
        assert(superfiles[i].uri != superfiles[n - 1].uri);
    } else {
        let local = local_rows(rows, first_row(superfiles, i), first_row(superfiles, i + 1));
        assert forall|x: u32| #[trigger] local.contains(x) implies sets.contains_key(
            superfiles[i].uri,
        ) by {
            assert(local != Set::<u32>::empty());
        }
        let rest = local_sets(superfiles, n - 1, rows);
        if rest.contains_key(superfiles[i].uri) {
            let k = choose|k: int|
                0 <= k < n - 1 && (#[trigger] superfiles[k]).uri == superfiles[i].uri;
            assert(superfiles[k].uri != superfiles[i].uri);
        }
    }
}

proof fn lemma_local_keys(superfiles: Seq<EntryView>, n: int, rows: Set<u32>)
    requires
        n <= superfiles.len(),
    ensures
        forall|uri: u128| #[trigger]
            local_sets(superfiles, n, rows).contains_key(uri) ==> exists|i: int|
                0 <= i < n && (#[trigger] superfiles[i]).uri == uri,
        forall|uri: u128| #[trigger]
            local_sets(superfiles, n, rows).contains_key(uri) ==> exists|x: u32| #[trigger]
                local_sets(superfiles, n, rows)[uri].contains(x),
    decreases n,
{
    if n > 0 {
        lemma_local_keys(superfiles, n - 1, rows);
        let local = local_rows(rows, first_row(superfiles, n - 1), first_row(superfiles, n));
        let sets = local_sets(superfiles, n, rows);
        let rest = local_sets(superfiles, n - 1, rows);
        assert forall|uri: u128| #[trigger] sets.contains_key(uri) implies exists|i: int|
            0 <= i < n && (#[trigger] superfiles[i]).uri == uri by {
            if uri == superfiles[n - 1].uri {
            } else {
                assert(rest.contains_key(uri));
            }
        }
        assert forall|uri: u128| #[trigger] sets.contains_key(uri) implies exists|x: u32| #[trigger]
            sets[uri].contains(x) by {
            if local != Set::<u32>::empty() && uri == superfiles[n - 1].uri {
                if forall|x: u32| !#[trigger] local.contains(x) {
                    assert(local =~= Set::<u32>::empty());
                }
                let x = choose|x: u32| #[trigger] local.contains(x);
                assert(sets[uri].contains(x));
            } else {
                assert(rest.contains_key(uri));
                let x = choose|x: u32| #[trigger] rest[uri].contains(x);
                assert(sets[uri].contains(x));
            }
        }
    }
}

/// A row that is admitted in the whole table is admitted in the superfile that
/// has it, under its number there, and no other row is admitted anywhere. A
/// superfile has a set exactly if one of its rows is admitted.
pub proof fn lemma_admitted_rows_are_found(
    superfiles: Vec<Arc<SuperfileEntry>>,
    allow_global: RoaringBitmap,
    sets: AllowSets,
    i: int,
    x: u32,
)
    requires
        call_ensures(local_allow_sets, (&superfiles, &allow_global), sets),
        0 <= i < superfiles@.len(),
        forall|a: int, b: int|
            0 <= a < b < superfiles@.len() ==> (#[trigger] superfiles@[a]).uri.0 != (
            #[trigger] superfiles@[b]).uri.0,
    ensures
        ({
            let rows = bitmap_contents(allow_global);
            let uri = superfiles@[i].uri.0;
            let base = rows_before(superfiles@, i);
            &&& (sets@.contains_key(uri) && bitmap_contents(*sets@[uri]).contains(x)) <==> (x
                < superfiles@[i].n_docs && base + x <= u32::MAX && rows.contains(
                (base + x) as u32,
            ))
            &&& sets@.contains_key(uri) ==> exists|y: u32| #[trigger]
                bitmap_contents(*sets@[uri]).contains(y)
            &&& forall|other: u128| #[trigger]
                sets@.contains_key(other) ==> exists|k: int|
                    0 <= k < superfiles@.len() && (#[trigger] superfiles@[k]).uri.0 == other
        }),
{
    broadcast use group_hash_axioms;

    let views = entries_view(superfiles@);
    let n = superfiles@.len() as int;
    let rows = bitmap_contents(allow_global);
    let uri = superfiles@[i].uri.0;
    let base = rows_before(superfiles@, i);
    assert forall|a: int, b: int| 0 <= a < b < views.len() implies (#[trigger] views[a]).uri != (
    #[trigger] views[b]).uri by {
        assert(superfiles@[a].uri.0 != superfiles@[b].uri.0);
    }
    lemma_first_row(superfiles@, i);
    lemma_first_row(superfiles@, i + 1);
    lemma_local_sets(views, n, rows, i);
    lemma_local_keys(views, n, rows);
    assert(views[i].uri == uri);
    let found = allow_view(sets@);
    let local = local_rows(rows, first_row(views, i), first_row(views, i + 1));
    assert(sets@.contains_key(uri) <==> found.contains_key(uri));
    assert(sets@.contains_key(uri) ==> found[uri] == bitmap_contents(*sets@[uri]));
    assert(local.contains(x) <==> (x < superfiles@[i].n_docs && base + x <= u32::MAX
        && rows.contains((base + x) as u32)));
    assert forall|other: u128| #[trigger] sets@.contains_key(other) implies exists|k: int|
        0 <= k < superfiles@.len() && (#[trigger] superfiles@[k]).uri.0 == other by {
        assert(found.contains_key(other));
        let k = choose|k: int| 0 <= k < n && (#[trigger] views[k]).uri == other;
        assert(superfiles@[k].uri.0 == other);
    }
    if sets@.contains_key(uri) {
        let y = choose|y: u32| #[trigger] found[uri].contains(y);
        assert(bitmap_contents(*sets@[uri]).contains(y));
    }
}

// ---- Which clusters are searched --------------------------------------------

/// Can the clusters of a superfile be ranked? It has to know their centres,
/// with as many numbers as the query has. `summary` is how many clusters it
/// knows, and how many numbers a centre has.
pub fn ranks_clusters(summary: Option<(usize, u32)>, query_len: usize) -> (res: bool)
    ensures
        res == match summary {
            Some((n_clusters, dim)) => n_clusters > 0 && dim == query_len,
            None => false,
        },
{
    match summary {
        Some((n_clusters, dim)) => n_clusters > 0 && dim as usize == query_len,
        None => false,
    }
}

/// A superfile that may hold neighbours, with its clusters and the bits of
/// their distances, if they can be ranked.
#[derive(Debug)]
pub struct Candidate {
    pub uri: SuperfileUri,
    pub clusters: Option<Vec<(u32, u32)>>,
}

/// How a superfile is searched.
#[derive(Debug, Clone, PartialEq, Eq)]
pub enum Probe {
    /// In the given clusters.
    Clusters(Vec<u32>),
    /// In the closest clusters that it finds itself.
    Nprobe,
}

/// [`Probe`] over sequences.
#[verifier::ext_equal]
pub enum ProbeView {
    Clusters(Seq<u32>),
    Nprobe,
}

impl View for Probe {
    type V = ProbeView;

    open spec fn view(&self) -> ProbeView {
        match self {
            Probe::Clusters(ids) => ProbeView::Clusters(ids@),
            Probe::Nprobe => ProbeView::Nprobe,
        }
    }
}

/// A superfile to search, by its position, and its admitted rows if the search
/// is filtered.
pub struct ProbeUnit {
    pub superfile: usize,
    pub probe: Probe,
    pub allow: Option<Arc<RoaringBitmap>>,
}

/// May the superfile be searched? In a filtered search only one with admitted
/// rows.
pub open spec fn admitted(allow: Option<Map<u128, Set<u32>>>, uri: u128) -> bool {
    match allow {
        Some(sets) => sets.contains_key(uri),
        None => true,
    }
}

/// The sets of a filtered search.
pub open spec fn optional_allow(allow: Option<&AllowSets>) -> Option<Map<u128, Set<u32>>> {
    match allow {
        Some(sets) => Some(allow_view(sets@)),
        None => None,
    }
}

/// Can the superfile's clusters be ranked?
pub open spec fn has_ranking(candidate: Candidate) -> bool {
    candidate.clusters matches Some(clusters) && clusters@.len() > 0
}

/// The clusters of a superfile that take part in the ranking.
pub open spec fn ranked(candidate: Candidate, allow: Option<Map<u128, Set<u32>>>) -> Seq<
    (u32, u32),
> {
    if admitted(allow, candidate.uri.0) && candidate.clusters is Some {
        candidate.clusters->0@
    } else {
        Seq::empty()
    }
}

/// How many clusters of the first `n` superfiles take part in the ranking.
pub open spec fn ranked_before(
    candidates: Seq<Candidate>,
    allow: Option<Map<u128, Set<u32>>>,
    n: int,
) -> nat
    decreases n,
{
    if n <= 0 {
        0
    } else {
        ranked_before(candidates, allow, n - 1) + ranked(candidates[n - 1], allow).len()
    }
}

/// The keys of the clusters of the first `n` superfiles, one superfile after
/// the other.
pub open spec fn rank_keys(
    candidates: Seq<Candidate>,
    allow: Option<Map<u128, Set<u32>>>,
    n: int,
) -> Seq<u64>
    decreases n,
{
    if n <= 0 {
        Seq::empty()
    } else {
        rank_keys(candidates, allow, n - 1) + cluster_keys(ranked(candidates[n - 1], allow))
    }
}

/// The keys of clusters.
pub open spec fn cluster_keys(clusters: Seq<(u32, u32)>) -> Seq<u64> {
    clusters.map_values(|c: (u32, u32)| sort_key(c.1))
}

/// How many of the first `n` superfiles take part in the ranking.
pub open spec fn n_eligible(
    candidates: Seq<Candidate>,
    allow: Option<Map<u128, Set<u32>>>,
    n: int,
) -> nat
    decreases n,
{
    if n <= 0 {
        0
    } else {
        n_eligible(candidates, allow, n - 1) + if ranked(candidates[n - 1], allow).len() > 0 {
            1nat
        } else {
            0nat
        }
    }
}

/// How many clusters are searched: as many as if each superfile searched
/// `nprobe` of its own.
pub open spec fn probe_budget(nprobe: usize, eligible: nat) -> int {
    let n = if eligible == 0 {
        1
    } else {
        eligible
    };
    if nprobe * n > usize::MAX {
        usize::MAX as int
    } else {
        nprobe * n
    }
}

/// Is the cluster at position `p` of the ranking searched? It is if it is
/// among the closest.
pub open spec fn is_kept(keys: Seq<u64>, budget: int, p: int) -> bool {
    keys.len() <= budget || holds_position(sorted_order(keys).take(budget), p)
}

/// The searched ones of a superfile's clusters, whose first is at position
/// `offset` of the ranking.
pub open spec fn kept_clusters(
    clusters: Seq<(u32, u32)>,
    keys: Seq<u64>,
    budget: int,
    offset: int,
) -> Seq<u32>
    decreases clusters.len(),
{
    if clusters.len() == 0 {
        Seq::empty()
    } else {
        let rest = kept_clusters(clusters.drop_last(), keys, budget, offset);
        if is_kept(keys, budget, offset + clusters.len() - 1) {
            rest.push(clusters.last().0)
        } else {
            rest
        }
    }
}

/// How a superfile is searched, if at all: in its clusters that are among the
/// closest; or, if they cannot be ranked, in those that it finds itself.
pub open spec fn probe_of(
    candidate: Candidate,
    allow: Option<Map<u128, Set<u32>>>,
    keys: Seq<u64>,
    budget: int,
    offset: int,
) -> Option<ProbeView> {
    if !admitted(allow, candidate.uri.0) {
        None
    } else if !has_ranking(candidate) {
        Some(ProbeView::Nprobe)
    } else {
        let ids = kept_clusters(candidate.clusters->0@, keys, budget, offset);
        if ids.len() == 0 {
            None
        } else {
            Some(ProbeView::Clusters(ids))
        }
    }
}

/// The searches of the first `n` superfiles, by position.
pub open spec fn probes(
    candidates: Seq<Candidate>,
    allow: Option<Map<u128, Set<u32>>>,
    keys: Seq<u64>,
    budget: int,
    n: int,
) -> Seq<(int, ProbeView)>
    decreases n,
{
    if n <= 0 {
        Seq::empty()
    } else {
        let rest = probes(candidates, allow, keys, budget, n - 1);
        match probe_of(
            candidates[n - 1],
            allow,
            keys,
            budget,
            ranked_before(candidates, allow, n - 1) as int,
        ) {
            Some(probe) => rest.push((n - 1, probe)),
            None => rest,
        }
    }
}

/// The units as positions and probes.
pub open spec fn units_view(units: Seq<ProbeUnit>) -> Seq<(int, ProbeView)> {
    units.map_values(|u: ProbeUnit| (u.superfile as int, u.probe@))
}

/// Of two clusters of which one is searched and one is not, the searched one
/// is not farther.
pub proof fn lemma_kept_are_closest(keys: Seq<u64>, budget: int, p: int, q: int)
    requires
        keys.len() <= usize::MAX,
        0 <= budget,
        0 <= p < keys.len(),
        0 <= q < keys.len(),
        is_kept(keys, budget, p),
        !is_kept(keys, budget, q),
    ensures
        keys[p] <= keys[q],
{
    lemma_sorted_order(keys);
    let order = sorted_order(keys);
    let kept = order.take(budget);
    let i = choose|i: int| 0 <= i < kept.len() && (#[trigger] kept[i]) == p;
    assert(holds_position(order, q));
    let j = choose|j: int| 0 <= j < order.len() && (#[trigger] order[j]) == q;
    if j < budget {
        assert(kept[j] == q);
    }
    assert(order[i] == p);
}

/// The positions of the ranking that are searched.
pub open spec fn kept_positions(keys: Seq<u64>, budget: int) -> Set<int> {
    Set::new(|p: int| 0 <= p < keys.len() && is_kept(keys, budget, p))
}

/// As many clusters are searched as the budget allows, or all if there are
/// fewer.
pub proof fn lemma_budget_is_used(keys: Seq<u64>, budget: int)
    requires
        keys.len() <= usize::MAX,
        0 <= budget,
    ensures
        kept_positions(keys, budget).finite(),
        kept_positions(keys, budget).len() == if keys.len() <= budget {
            keys.len() as int
        } else {
            budget
        },
{
    let kept = kept_positions(keys, budget);
    if keys.len() <= budget {
        vstd::set_lib::lemma_int_range(0, keys.len() as int);
        assert(kept =~= vstd::set_lib::set_int_range(0, keys.len() as int));
    } else {
        lemma_sorted_order(keys);
        let order = sorted_order(keys);
        let listed = Seq::new(budget as nat, |i: int| order[i] as int);
        assert(listed.no_duplicates());
        listed.unique_seq_to_set();
        assert forall|p: int| kept.contains(p) <==> #[trigger] listed.to_set().contains(p) by {
            if kept.contains(p) {
                let i = choose|i: int|
                    0 <= i < order.take(budget).len() && (#[trigger] order.take(budget)[i]) == p;
                assert(listed[i] == p);
            }
            if listed.to_set().contains(p) {
                let i = choose|i: int| 0 <= i < listed.len() && listed[i] == p;
                assert(order.take(budget)[i] == p);
            }
        }
        assert(kept =~= listed.to_set());
    }
}

/// A superfile whose clusters cannot be ranked is always searched, if it may
/// be.
pub proof fn lemma_unranked_are_searched(
    candidates: Seq<Candidate>,
    allow: Option<Map<u128, Set<u32>>>,
    keys: Seq<u64>,
    budget: int,
    n: int,
    i: int,
)
    requires
        0 <= i < n <= candidates.len(),
        admitted(allow, candidates[i].uri.0),
        !has_ranking(candidates[i]),
    ensures
        probes(candidates, allow, keys, budget, n).contains((i, ProbeView::Nprobe)),
    decreases n,
{
    let all = probes(candidates, allow, keys, budget, n);
    let rest = probes(candidates, allow, keys, budget, n - 1);
    if i == n - 1 {
        assert(all[all.len() - 1] == (i, ProbeView::Nprobe));
    } else {
        lemma_unranked_are_searched(candidates, allow, keys, budget, n - 1, i);
        let k = choose|k: int| 0 <= k < rest.len() && rest[k] == (i, ProbeView::Nprobe);
        assert(all[k] == (i, ProbeView::Nprobe));
    }
}

/// A filtered search touches no superfile without admitted rows, and none
/// twice.
pub proof fn lemma_probes_are_admitted(
    candidates: Seq<Candidate>,
    allow: Option<Map<u128, Set<u32>>>,
    keys: Seq<u64>,
    budget: int,
    n: int,
    k: int,
)
    requires
        n <= candidates.len(),
        0 <= k < probes(candidates, allow, keys, budget, n).len(),
    ensures
        0 <= probes(candidates, allow, keys, budget, n)[k].0 < n,
        admitted(allow, candidates[probes(candidates, allow, keys, budget, n)[k].0].uri.0),
        forall|m: int|
            0 <= m < k ==> (#[trigger] probes(candidates, allow, keys, budget, n)[m]).0 < probes(
                candidates,
                allow,
                keys,
                budget,
                n,
            )[k].0,
    decreases n,
{
    let all = probes(candidates, allow, keys, budget, n);
    let rest = probes(candidates, allow, keys, budget, n - 1);
    if k < rest.len() {
        lemma_probes_are_admitted(candidates, allow, keys, budget, n - 1, k);
        assert forall|m: int| 0 <= m < k implies (#[trigger] all[m]).0 < all[k].0 by {
            assert(all[m] == rest[m]);
        }
    } else {
        assert forall|m: int| 0 <= m < k implies (#[trigger] all[m]).0 < all[k].0 by {
            lemma_probes_are_admitted(candidates, allow, keys, budget, n - 1, m);
            assert(all[m] == rest[m]);
        }
    }
}

proof fn lemma_ranked_len(
    candidates: Seq<Candidate>,
    allow: Option<Map<u128, Set<u32>>>,
    n: int,
)
    ensures
        rank_keys(candidates, allow, n).len() == ranked_before(candidates, allow, n),
    decreases n,
{
    if n > 0 {
        lemma_ranked_len(candidates, allow, n - 1);
    }
}

proof fn lemma_ranked_grows(
    candidates: Seq<Candidate>,
    allow: Option<Map<u128, Set<u32>>>,
    n: int,
    m: int,
)
    requires
        n <= m,
    ensures
        ranked_before(candidates, allow, n) <= ranked_before(candidates, allow, m),
    decreases m,
{
    if n < m && m > 0 {
        lemma_ranked_grows(candidates, allow, n, m - 1);
    }
}

/// May the superfile be searched?
fn is_admitted(allow: Option<&AllowSets>, uri: u128) -> (res: bool)
    ensures
        res == admitted(optional_allow(allow), uri),
{
    broadcast use group_hash_axioms;

    match allow {
        Some(sets) => sets.contains_key(&uri),
        None => true,
    }
}

/// The keys of all clusters that take part in the ranking, and how many
/// superfiles do.
fn rank(candidates: &[Candidate], allow: Option<&AllowSets>) -> (res: (Vec<u64>, usize))
    ensures
        ({
            let (keys, eligible) = res;
            keys@ == rank_keys(candidates@, optional_allow(allow), candidates@.len() as int)
                && eligible == n_eligible(
                candidates@,
                optional_allow(allow),
                candidates@.len() as int,
            )
        }),
{
    let ghost sets = optional_allow(allow);
    let mut keys: Vec<u64> = Vec::new();
    let mut eligible: usize = 0;
    let mut i: usize = 0;
    while i < candidates.len()
        invariant
            i <= candidates@.len(),
            sets == optional_allow(allow),
            keys@ == rank_keys(candidates@, sets, i as int),
            eligible == n_eligible(candidates@, sets, i as int),
            eligible <= i,
        decreases candidates.len() - i,
    {
        let ghost before = keys@;
        let candidate = &candidates[i];
        assert(*candidate == candidates@[i as int]);
        if is_admitted(allow, candidate.uri.0) {
            if let Some(clusters) = &candidate.clusters {
                let mut c: usize = 0;
                assert(cluster_keys(clusters@.take(0)) =~= Seq::empty());
                while c < clusters.len()
                    invariant
                        c <= clusters@.len(),
                        keys@ == before + cluster_keys(clusters@.take(c as int)),
                    decreases clusters.len() - c,
                {
                    keys.push(score_key(clusters[c].1));
                    assert(cluster_keys(clusters@.take(c + 1)) =~= cluster_keys(
                        clusters@.take(c as int),
                    ).push(sort_key(clusters@[c as int].1)));
                    assert(keys@ =~= before + cluster_keys(clusters@.take(c + 1)));
                    c = c + 1;
                }
                assert(clusters@.take(clusters@.len() as int) =~= clusters@);
                if clusters.len() > 0 {
                    eligible = eligible + 1;
                }
            } else {
                assert(cluster_keys(ranked(*candidate, sets)) =~= Seq::empty());
            }
        } else {
            assert(cluster_keys(ranked(*candidate, sets)) =~= Seq::empty());
        }
        assert(keys@ =~= rank_keys(candidates@, sets, i + 1));
        i = i + 1;
    }
    (keys, eligible)
}

/// How many clusters are searched.
fn budget_of(nprobe: usize, eligible: usize) -> (budget: usize)
    ensures
        budget == probe_budget(nprobe, eligible as nat),
{
    let n = if eligible == 0 {
        1
    } else {
        eligible
    };
    match nprobe.checked_mul(n) {
        Some(budget) => budget,
        None => usize::MAX,
    }
}

/// Which clusters of the ranking are searched.
fn keep_closest(keys: &Vec<u64>, budget: usize) -> (keep: Vec<bool>)
    ensures
        keep@.len() == keys@.len(),
        forall|p: int| 0 <= p < keep@.len() ==> #[trigger] keep@[p] == is_kept(
            keys@,
            budget as int,
            p,
        ),
{
    let all = keys.len() <= budget;
    let mut keep: Vec<bool> = Vec::new();
    while keep.len() < keys.len()
        invariant
            keep@.len() <= keys@.len(),
            forall|p: int| 0 <= p < keep@.len() ==> #[trigger] keep@[p] == all,
        decreases keys.len() - keep.len(),
    {
        keep.push(all);
    }
    if all {
        return keep;
    }
    let order = sort_positions(keys);
    let ghost kept = order@.take(budget as int);
    let mut i: usize = 0;
    while i < budget
        invariant
            i <= budget < order@.len(),
            keep@.len() == keys@.len(),
            order@.len() == keys@.len(),
            holds_positions(order@, 0, keys@.len() as int),
            forall|p: int| 0 <= p < keep@.len() ==> #[trigger] keep@[p] == holds_position(
                order@.take(i as int),
                p,
            ),
        decreases budget - i,
    {
        let at = order[i];
        let ghost before = keep@;
        keep.set(at, true);
        proof {
            let was = order@.take(i as int);
            let now = order@.take(i + 1);
            assert(now[i as int] == at);
            assert forall|p: int| 0 <= p < keep@.len() implies #[trigger] keep@[p]
                == holds_position(now, p) by {
                if holds_position(was, p) {
                    let k = choose|k: int| 0 <= k < was.len() && (#[trigger] was[k]) == p;
                    assert(now[k] == p);
                }
                if holds_position(now, p) && p != at {
                    let k = choose|k: int| 0 <= k < now.len() && (#[trigger] now[k]) == p;
                    assert(was[k] == p);
                }
            }
        }
        i = i + 1;
    }
    keep
}

/// Plans a search: which superfiles are searched, in which clusters, and among
/// which rows. `nprobe` is how many clusters each superfile would search by
/// itself. A score that is a NaN, which comparison leaves without a place,
/// ranks beyond the infinities.
pub fn plan_probes(
    candidates: &[Candidate],
    nprobe: usize,
    allow: Option<&AllowSets>,
) -> (units: Vec<ProbeUnit>)
    ensures
        ({
            let sets = optional_allow(allow);
            let n = candidates@.len() as int;
            let keys = rank_keys(candidates@, sets, n);
            let budget = probe_budget(nprobe, n_eligible(candidates@, sets, n));
            units_view(units@) == probes(candidates@, sets, keys, budget, n)
        }),
        forall|k: int|
            0 <= k < units@.len() ==> match optional_allow(allow) {
                Some(sets) => (#[trigger] units@[k]).allow matches Some(rows) && bitmap_contents(
                    *rows,
                ) == sets[candidates@[units@[k].superfile as int].uri.0],
                None => units@[k].allow is None,
            },
{
    broadcast use group_hash_axioms;

    let ghost sets = optional_allow(allow);
    let ghost n = candidates@.len() as int;
    let (keys, eligible) = rank(candidates, allow);
    let budget = budget_of(nprobe, eligible);
    let keep = keep_closest(&keys, budget);
    let mut units: Vec<ProbeUnit> = Vec::new();
    let mut offset: usize = 0;
    let mut i: usize = 0;
    assert(units_view(units@) =~= Seq::empty());
    while i < candidates.len()
        invariant
            i <= candidates@.len(),
            n == candidates@.len(),
            sets == optional_allow(allow),
            keys@ == rank_keys(candidates@, sets, n),
            keep@.len() == keys@.len(),
            forall|p: int| 0 <= p < keep@.len() ==> #[trigger] keep@[p] == is_kept(
                keys@,
                budget as int,
                p,
            ),
            offset == ranked_before(candidates@, sets, i as int),
            offset <= keys@.len(),
            units_view(units@) == probes(candidates@, sets, keys@, budget as int, i as int),
            forall|k: int|
                0 <= k < units@.len() ==> match sets {
                    Some(sets) => (#[trigger] units@[k]).allow matches Some(rows)
                        && bitmap_contents(*rows)
                        == sets[candidates@[units@[k].superfile as int].uri.0],
                    None => units@[k].allow is None,
                },
        decreases candidates.len() - i,
    {
        let candidate = &candidates[i];
        assert(*candidate == candidates@[i as int]);
        proof {
            lemma_ranked_len(candidates@, sets, n);
            lemma_ranked_grows(candidates@, sets, i + 1, n);
            assert(keys.len() == keys@.len());
        }
        if is_admitted(allow, candidate.uri.0) {
            let rows: Option<Arc<RoaringBitmap>> = match allow {
                Some(bitmaps) => match bitmaps.get(&candidate.uri.0) {
                    Some(bitmap) => Some(Arc::clone(bitmap)),
                    None => None,
                },
                None => None,
            };
            let ghost before = units@;
            match &candidate.clusters {
                Some(clusters) if clusters.len() > 0 => {
                    let ids = kept_ids(clusters, &keep, &keys, budget, offset);
                    offset = offset + clusters.len();
                    if ids.len() > 0 {
                        units.push(
                            ProbeUnit { superfile: i, probe: Probe::Clusters(ids), allow: rows },
                        );
                        assert(units_view(units@) =~= units_view(before).push(
                            (i as int, ProbeView::Clusters(ids@)),
                        ));
                    }
                },
                _ => {
                    units.push(ProbeUnit { superfile: i, probe: Probe::Nprobe, allow: rows });
                    assert(units_view(units@) =~= units_view(before).push(
                        (i as int, ProbeView::Nprobe),
                    ));
                },
            }
        }
        i = i + 1;
    }
    units
}

/// The searched ones of a superfile's clusters.
fn kept_ids(
    clusters: &Vec<(u32, u32)>,
    keep: &Vec<bool>,
    keys: &Vec<u64>,
    budget: usize,
    offset: usize,
) -> (ids: Vec<u32>)
    requires
        offset + clusters@.len() <= keep@.len(),
        forall|p: int| 0 <= p < keep@.len() ==> #[trigger] keep@[p] == is_kept(
            keys@,
            budget as int,
            p,
        ),
    ensures
        ids@ == kept_clusters(clusters@, keys@, budget as int, offset as int),
{
    let mut ids: Vec<u32> = Vec::new();
    let mut c: usize = 0;
    assert(keep.len() == keep@.len());
    assert(clusters@.take(0) =~= Seq::empty());
    while c < clusters.len()
        invariant
            c <= clusters@.len(),
            offset + clusters@.len() <= keep@.len() <= usize::MAX,
            forall|p: int| 0 <= p < keep@.len() ==> #[trigger] keep@[p] == is_kept(
                keys@,
                budget as int,
                p,
            ),
            ids@ == kept_clusters(
                clusters@.take(c as int),
                keys@,
                budget as int,
                offset as int,
            ),
        decreases clusters.len() - c,
    {
        assert(clusters@.take(c + 1).drop_last() =~= clusters@.take(c as int));
        if keep[offset + c] {
            ids.push(clusters[c].0);
        }
        c = c + 1;
    }
    assert(clusters@.take(clusters@.len() as int) =~= clusters@);
    ids
}

/// How many of the remaining superfiles are searched at once. A filtered
/// search holds the admitted rows of each, so it takes no more than there are
/// reader threads.
pub fn wave_len(filtered: bool, reader_threads: usize, remaining: usize) -> (n: usize)
    ensures
        !filtered ==> n == remaining,
        filtered && reader_threads == 0 ==> n == if remaining < 1 {
            remaining
        } else {
            1
        },
        filtered && reader_threads > 0 ==> n == if remaining < reader_threads {
            remaining
        } else {
            reader_threads
        },
        remaining > 0 ==> 0 < n <= remaining,
{
    if !filtered {
        return remaining;
    }
    let width = if reader_threads == 0 {
        1
    } else {
        reader_threads
    };
    if remaining < width {
        remaining
    } else {
        width
    }
}

// ---- The closest of all -----------------------------------------------------

/// The hits of all superfiles, one superfile after the other.
pub open spec fn all_hits(per_superfile: Seq<Vec<SuperfileHit>>) -> Seq<SuperfileHit>
    decreases per_superfile.len(),
{
    if per_superfile.len() == 0 {
        Seq::empty()
    } else {
        all_hits(per_superfile.drop_last()) + per_superfile.last()@
    }
}

/// The keys of hits.
pub open spec fn hit_keys(hits: Seq<SuperfileHit>) -> Seq<u64> {
    hits.map_values(|h: SuperfileHit| sort_key(h.score))
}

/// The `k` closest hits, closest first; of equally close ones the earlier.
pub open spec fn closest(hits: Seq<SuperfileHit>, k: nat) -> Seq<SuperfileHit> {
    let order = sorted_order(hit_keys(hits));
    Seq::new(
        if k < hits.len() {
            k
        } else {
            hits.len()
        },
        |i: int| hits[order[i] as int],
    )
}

/// The place of the hit that goes first, where hits are kept in the order in
/// which they came: the farthest, of equally far ones the latest. A distance
/// that is a NaN is neither nearer nor farther than another; it is the one to
/// go only where it came first of all.
pub open spec fn farthest(kept: Seq<SuperfileHit>) -> int
    decreases kept.len(),
{
    if kept.len() <= 1 {
        0
    } else {
        let so_far = farthest(kept.drop_last());
        let last = kept.last().score;
        let far = kept[so_far].score;
        if is_nan(last) || is_nan(far) || is_less(last, far) {
            so_far
        } else {
            kept.len() - 1
        }
    }
}

/// The hits that are kept of `hits`, in the order in which they came: the
/// first `k`, until one comes that is nearer than the farthest of them and
/// takes its place.
pub open spec fn kept_hits(hits: Seq<SuperfileHit>, k: nat) -> Seq<SuperfileHit>
    decreases hits.len(),
{
    if hits.len() == 0 {
        Seq::empty()
    } else {
        let kept = kept_hits(hits.drop_last(), k);
        let hit = hits.last();
        if kept.len() < k {
            kept.push(hit)
        } else if k > 0 && is_less(hit.score, kept[farthest(kept)].score) {
            kept.remove(farthest(kept)).push(hit)
        } else {
            kept
        }
    }
}

/// Is no distance a NaN?
pub open spec fn all_numbers(hits: Seq<SuperfileHit>) -> bool {
    forall|i: int| 0 <= i < hits.len() ==> !is_nan((#[trigger] hits[i]).score)
}

/// Among numbers, the farthest hit is the one that comes last in ascending
/// order of distance.
proof fn lemma_farthest(kept: Seq<SuperfileHit>)
    requires
        kept.len() > 0,
        all_numbers(kept),
    ensures
        0 <= farthest(kept) < kept.len(),
        forall|i: int|
            0 <= i < kept.len() ==> order_key((#[trigger] kept[i]).score) <= order_key(
                kept[farthest(kept)].score,
            ),
        forall|i: int|
            farthest(kept) < i < kept.len() ==> order_key((#[trigger] kept[i]).score) < order_key(
                kept[farthest(kept)].score,
            ),
    decreases kept.len(),
{
    if kept.len() > 1 {
        let rest = kept.drop_last();
        assert(forall|i: int| 0 <= i < rest.len() ==> #[trigger] rest[i] == kept[i]);
        lemma_farthest(rest);
        let f = farthest(kept);
        assert forall|i: int| 0 <= i < kept.len() implies order_key((#[trigger] kept[i]).score)
            <= order_key(kept[f].score) by {
            if i < rest.len() {
                assert(rest[i] == kept[i]);
            }
        }
        assert forall|i: int| f < i < kept.len() implies order_key((#[trigger] kept[i]).score)
            < order_key(kept[f].score) by {
            if i < rest.len() {
                assert(rest[i] == kept[i]);
            }
        }
    }
}

/// Are `places` those of the hits that are kept, in ascending order, and does
/// every other hit come after them in ascending order of distance?
spec fn are_kept_places(hits: Seq<SuperfileHit>, k: nat, places: Seq<int>) -> bool {
    &&& places.len() == if k < hits.len() {
        k
    } else {
        hits.len()
    }
    &&& forall|i: int, j: int|
        0 <= i < j < places.len() ==> #[trigger] places[i] < #[trigger] places[j]
    &&& forall|i: int| 0 <= i < places.len() ==> 0 <= #[trigger] places[i] < hits.len()
    &&& kept_hits(hits, k) == places.map_values(|p: int| hits[p])
    &&& forall|i: int, q: int|
        0 <= i < places.len() && 0 <= q < hits.len() && !places.contains(q)
            ==> #[trigger] comes_before(hit_keys(hits), places[i], q)
}

proof fn lemma_kept_places(hits: Seq<SuperfileHit>, k: nat) -> (places: Seq<int>)
    requires
        all_numbers(hits),
    ensures
        are_kept_places(hits, k, places),
    decreases hits.len(),
{
    if hits.len() == 0 {
        let places = Seq::<int>::empty();
        assert(kept_hits(hits, k) =~= places.map_values(|p: int| hits[p]));
        places
    } else {
        let rest = hits.drop_last();
        let n = rest.len() as int;
        let hit = hits.last();
        assert(forall|i: int| 0 <= i < n ==> #[trigger] rest[i] == hits[i]);
        let before = lemma_kept_places(rest, k);
        let kept = kept_hits(rest, k);
        let keys = hit_keys(hits);
        assert(forall|i: int| 0 <= i < n ==> #[trigger] hit_keys(rest)[i] == keys[i]);
        assert(before.map_values(|p: int| hits[p]) =~= kept);
        assert forall|i: int, q: int|
            0 <= i < before.len() && 0 <= q < n && !before.contains(q) implies #[trigger] comes_before(
            keys,
            before[i],
            q,
        ) by {
            assert(comes_before(hit_keys(rest), before[i], q));
        }
        if kept.len() < k {
            let places = before.push(n);
            assert(kept_hits(hits, k) =~= places.map_values(|p: int| hits[p]));
            assert forall|q: int| 0 <= q < hits.len() implies places.contains(q) by {
                if q == n {
                    assert(places[n] == n);
                } else {
                    lemma_ascending_covers(before, n);
                    assert(before[q] == q);
                    assert(places[q] == q);
                }
            }
            places
        } else if k > 0 {
            assert(all_numbers(kept)) by {
                assert(forall|i: int|
                    0 <= i < kept.len() ==> #[trigger] kept[i] == hits[before[i]]);
            }
            lemma_farthest(kept);
            let f = farthest(kept);
            assert forall|i: int| 0 <= i < before.len() && i != f implies comes_before(
                keys,
                #[trigger] before[i],
                before[f],
            ) by {
                assert(kept[i] == hits[before[i]]);
                assert(kept[f] == hits[before[f]]);
            }
            assert(kept[f] == hits[before[f]]);
            if is_less(hit.score, kept[f].score) {
                let places = before.remove(f).push(n);
                assert(kept_hits(hits, k) =~= places.map_values(|p: int| hits[p]));
                assert forall|i: int, q: int|
                    0 <= i < places.len() && 0 <= q < hits.len() && !places.contains(
                        q,
                    ) implies #[trigger] comes_before(keys, places[i], q) by {
                    assert(places[places.len() - 1] == n);
                    assert(q < n);
                    if before.contains(q) {
                        let at = before.index_of(q);
                        if at != f {
                            assert(places[if at < f {
                                at
                            } else {
                                at - 1
                            }] == q);
                        }
                        assert(q == before[f]);
                    } else {
                        assert(comes_before(keys, before[f], q));
                    }
                    if i < places.len() - 1 {
                        let was = if i < f {
                            i
                        } else {
                            i + 1
                        };
                        assert(places[i] == before[was]);
                        assert(comes_before(keys, before[was], before[f]));
                    }
                }
                places
            } else {
                assert forall|i: int, q: int|
                    0 <= i < before.len() && 0 <= q < hits.len() && !before.contains(
                        q,
                    ) implies #[trigger] comes_before(keys, before[i], q) by {
                    if q == n {
                        assert(kept[i] == hits[before[i]]);
                    }
                }
                before
            }
        } else {
            before
        }
    }
}

/// As many ascending numbers below `n` as there are, are all of them.
proof fn lemma_ascending_covers(places: Seq<int>, n: int)
    requires
        places.len() == n,
        forall|i: int, j: int| 0 <= i < j < n ==> #[trigger] places[i] < #[trigger] places[j],
        forall|i: int| 0 <= i < n ==> 0 <= #[trigger] places[i] < n,
    ensures
        forall|i: int| 0 <= i < n ==> #[trigger] places[i] == i,
{
    assert forall|i: int| 0 <= i < n implies #[trigger] places[i] == i by {
        lemma_ascending_from(places, i);
        lemma_ascending_to(places, i);
    }
}

proof fn lemma_ascending_from(places: Seq<int>, i: int)
    requires
        0 <= i < places.len(),
        forall|a: int, b: int|
            0 <= a < b < places.len() ==> #[trigger] places[a] < #[trigger] places[b],
        forall|a: int| 0 <= a < places.len() ==> 0 <= #[trigger] places[a],
    ensures
        places[i] >= i,
    decreases i,
{
    if i > 0 {
        lemma_ascending_from(places, i - 1);
    }
}

proof fn lemma_ascending_to(places: Seq<int>, i: int)
    requires
        0 <= i < places.len(),
        forall|a: int, b: int|
            0 <= a < b < places.len() ==> #[trigger] places[a] < #[trigger] places[b],
        forall|a: int| 0 <= a < places.len() ==> #[trigger] places[a] < places.len(),
    ensures
        places[i] <= i,
    decreases places.len() - i,
{
    if i < places.len() - 1 {
        lemma_ascending_to(places, i + 1);
    }
}

/// Different numbers below a bound are no more than the bound.
proof fn lemma_distinct_below(numbers: Seq<int>, bound: int)
    requires
        0 <= bound,
        numbers.no_duplicates(),
        forall|i: int| 0 <= i < numbers.len() ==> 0 <= #[trigger] numbers[i] < bound,
    ensures
        numbers.len() <= bound,
{
    numbers.unique_seq_to_set();
    vstd::set_lib::lemma_int_range(0, bound);
    vstd::set_lib::lemma_len_subset(numbers.to_set(), vstd::set_lib::set_int_range(0, bound));
}

/// Where every distance is a number, the hits that are kept as they come are
/// the closest of all.
pub proof fn lemma_kept_hits_are_closest(hits: Seq<SuperfileHit>, k: nat)
    requires
        all_numbers(hits),
        hits.len() <= usize::MAX,
    ensures
        closest(kept_hits(hits, k), k) == closest(hits, k),
{
    let places = lemma_kept_places(hits, k);
    let kept = kept_hits(hits, k);
    let keys = hit_keys(hits);
    let kept_keys = hit_keys(kept);
    let order = sorted_order(keys);
    let m = places.len() as int;
    lemma_sorted_order(keys);
    assert forall|i: int| 0 <= i < m implies places.contains(#[trigger] order[i] as int) by {
        if !places.contains(order[i] as int) {
            let ranks = Seq::new(
                m as nat,
                |j: int| choose|r: int| 0 <= r < order.len() && (#[trigger] order[r]) == places[j],
            );
            assert forall|j: int| 0 <= j < m implies 0 <= #[trigger] ranks[j] < i
                && order[ranks[j]] == places[j] by {
                assert(holds_position(order, places[j]));
                assert(comes_before(keys, places[j], order[i] as int));
                if ranks[j] > i {
                    assert(comes_before(keys, order[i] as int, order[ranks[j]] as int));
                }
            }
            assert(ranks.no_duplicates());
            lemma_distinct_below(ranks, i);
        }
    }
    let at = Seq::new(m as nat, |i: int| places.index_of(order[i] as int) as usize);
    assert forall|i: int| 0 <= i < m implies 0 <= #[trigger] at[i] < m && places[at[i] as int]
        == order[i] by {
        assert(places.contains(order[i] as int));
    }
    assert(kept.len() == m);
    assert(forall|i: int| 0 <= i < m ==> #[trigger] kept[i] == hits[places[i]]);
    assert forall|i: int, j: int| 0 <= i < j < at.len() implies comes_before(
        kept_keys,
        #[trigger] at[i] as int,
        #[trigger] at[j] as int,
    ) by {
        assert(comes_before(keys, order[i] as int, order[j] as int));
        assert(places[at[i] as int] == order[i]);
        assert(places[at[j] as int] == order[j]);
    }
    assert forall|p: int| 0 <= p < m implies #[trigger] holds_position(at, p) by {
        if !holds_position(at, p) {
            let numbers = at.map_values(|a: usize| a as int).push(p);
            assert forall|i: int, j: int| 0 <= i < j < m implies #[trigger] at[i]
                != #[trigger] at[j] by {
                assert(order[i] != order[j]);
            }
            assert(numbers.no_duplicates());
            lemma_distinct_below(numbers, m);
        }
    }
    lemma_sorted_order_unique(kept_keys, at);
    assert(closest(kept, k) =~= closest(hits, k));
}

/// As many hits are kept as there are, and no more than `k`.
proof fn lemma_kept_len(hits: Seq<SuperfileHit>, k: nat)
    ensures
        kept_hits(hits, k).len() == if k < hits.len() {
            k
        } else {
            hits.len()
        },
    decreases hits.len(),
{
    if hits.len() > 0 {
        lemma_kept_len(hits.drop_last(), k);
        let kept = kept_hits(hits.drop_last(), k);
        if kept.len() > 0 {
            lemma_farthest_is_kept(kept);
        }
    }
}

proof fn lemma_farthest_is_kept(kept: Seq<SuperfileHit>)
    requires
        kept.len() > 0,
    ensures
        0 <= farthest(kept) < kept.len(),
    decreases kept.len(),
{
    if kept.len() > 1 {
        lemma_farthest_is_kept(kept.drop_last());
    }
}

/// A hit whose distance is a NaN is not kept where `k` hits came before it.
pub proof fn lemma_late_nan_is_not_kept(hits: Seq<SuperfileHit>, hit: SuperfileHit, k: nat)
    requires
        is_nan(hit.score),
        hits.len() >= k,
    ensures
        kept_hits(hits.push(hit), k) == kept_hits(hits, k),
{
    assert(hits.push(hit).drop_last() =~= hits);
    lemma_kept_len(hits, k);
}

/// A hit whose distance is a NaN stays if it is among the first `k`, however
/// close the later ones are.
pub proof fn lemma_early_nan_stays(hits: Seq<SuperfileHit>, k: nat, p: int)
    requires
        0 <= p < hits.len(),
        p < k,
        is_nan(hits[p].score),
    ensures
        kept_hits(hits, k).contains(hits[p]),
    decreases hits.len(),
{
    let rest = hits.drop_last();
    let before = kept_hits(rest, k);
    let after = kept_hits(hits, k);
    lemma_kept_len(rest, k);
    if p == rest.len() {
        assert(after[p] == hits[p]);
    } else {
        lemma_early_nan_stays(rest, k, p);
        let at = before.index_of(hits[p]);
        let f = farthest(before);
        lemma_farthest_is_kept(before);
        if before.len() < k || !is_less(hits.last().score, before[f].score) {
            assert(after[at] == hits[p]);
        } else {
            assert(at != f);
            assert(after[if at < f {
                at
            } else {
                at - 1
            }] == hits[p]);
        }
    }
}

/// The place of the farthest hit.
fn farthest_place(kept: &Vec<SuperfileHit>) -> (place: usize)
    requires
        kept@.len() > 0,
    ensures
        place == farthest(kept@),
        place < kept@.len(),
{
    let mut place: usize = 0;
    let mut i: usize = 1;
    assert(kept@.take(1).len() == 1);
    while i < kept.len()
        invariant
            1 <= i <= kept@.len(),
            place < i,
            place == farthest(kept@.take(i as int)),
        decreases kept.len() - i,
    {
        let last = kept[i].score;
        let far = kept[place].score;
        assert(kept@.take(i + 1).drop_last() =~= kept@.take(i as int));
        if !(has_nan_bits(last) || has_nan_bits(far) || less(last, far)) {
            place = i;
        }
        i = i + 1;
    }
    assert(kept@.take(kept@.len() as int) =~= kept@);
    place
}

/// The hits that are kept of `hits`.
fn keep_hits(hits: &Vec<SuperfileHit>, k: usize) -> (kept: Vec<SuperfileHit>)
    ensures
        kept@ == kept_hits(hits@, k as nat),
{
    let mut kept: Vec<SuperfileHit> = Vec::new();
    let mut i: usize = 0;
    assert(hits@.take(0) =~= Seq::empty());
    while i < hits.len()
        invariant
            i <= hits@.len(),
            kept@ == kept_hits(hits@.take(i as int), k as nat),
            kept@.len() <= k,
        decreases hits.len() - i,
    {
        let hit = hits[i];
        assert(hits@.take(i + 1).drop_last() =~= hits@.take(i as int));
        if kept.len() < k {
            kept.push(hit);
        } else if k > 0 {
            let place = farthest_place(&kept);
            if less(hit.score, kept[place].score) {
                kept.remove(place);
                kept.push(hit);
            }
        }
        i = i + 1;
    }
    assert(hits@.take(hits@.len() as int) =~= hits@);
    kept
}

/// The hits in ascending order of distance, `k` of them.
fn closest_hits(hits: &Vec<SuperfileHit>, k: usize) -> (top: Vec<SuperfileHit>)
    ensures
        top@ == closest(hits@, k as nat),
        forall|i: int, j: int|
            0 <= i < j < top@.len() ==> sort_key((#[trigger] top@[i]).score) <= sort_key(
                (#[trigger] top@[j]).score,
            ),
        exists|order: Seq<usize>| #[trigger]
            holds_positions(order, 0, hits@.len() as int) && is_closest_prefix(hits@, order, top@),
{
    let mut keys: Vec<u64> = Vec::new();
    let mut s: usize = 0;
    while s < hits.len()
        invariant
            s <= hits@.len(),
            keys@ =~= hit_keys(hits@.take(s as int)),
        decreases hits.len() - s,
    {
        keys.push(score_key(hits[s].score));
        s = s + 1;
    }
    assert(hits@.take(hits@.len() as int) =~= hits@);
    let order = sort_positions(&keys);
    let mut top: Vec<SuperfileHit> = Vec::new();
    while top.len() < k && top.len() < hits.len()
        invariant
            top@.len() <= k,
            top@.len() <= hits@.len(),
            hits@.len() == keys@.len(),
            holds_positions(order@, 0, keys@.len() as int),
            forall|i: int|
                0 <= i < top@.len() ==> #[trigger] top@[i] == hits@[order@[i] as int],
        decreases hits.len() - top.len(),
    {
        let at = order[top.len()];
        top.push(hits[at]);
    }
    proof {
        assert(top@ =~= closest(hits@, k as nat));
        assert forall|i: int, j: int| 0 <= i < j < top@.len() implies sort_key(
            (#[trigger] top@[i]).score,
        ) <= sort_key((#[trigger] top@[j]).score) by {
            assert(comes_before(keys@, order@[i] as int, order@[j] as int));
        }
        assert(is_closest_prefix(hits@, order@, top@));
    }
    top
}

/// The `k` closest hits of all superfiles, closest first. A distance that is
/// a NaN is never nearer than another, nor is another nearer than it: such a
/// hit is kept if it is among the first `k`, and not if it comes later.
pub fn top_k_ascending(per_superfile: &[Vec<SuperfileHit>], k: usize) -> (top: Vec<SuperfileHit>)
    ensures
        top@ == closest(kept_hits(all_hits(per_superfile@), k as nat), k as nat),
        all_numbers(all_hits(per_superfile@)) ==> top@ == closest(
            all_hits(per_superfile@),
            k as nat,
        ),
        all_numbers(all_hits(per_superfile@)) ==> exists|order: Seq<usize>| #[trigger]
            holds_positions(order, 0, all_hits(per_superfile@).len() as int) && is_closest_prefix(
                all_hits(per_superfile@),
                order,
                top@,
            ),
        forall|i: int, j: int|
            0 <= i < j < top@.len() ==> sort_key((#[trigger] top@[i]).score) <= sort_key(
                (#[trigger] top@[j]).score,
            ),
{
    let mut hits: Vec<SuperfileHit> = Vec::new();
    let mut numbers = true;
    let mut s: usize = 0;
    assert(per_superfile@.take(0) =~= Seq::empty());
    while s < per_superfile.len()
        invariant
            s <= per_superfile@.len(),
            hits@ == all_hits(per_superfile@.take(s as int)),
            numbers == all_numbers(hits@),
        decreases per_superfile.len() - s,
    {
        let list = &per_superfile[s];
        let ghost before = hits@;
        assert(per_superfile@.take(s + 1).drop_last() =~= per_superfile@.take(s as int));
        let mut i: usize = 0;
        while i < list.len()
            invariant
                i <= list@.len(),
                hits@ == before + list@.take(i as int),
                numbers == all_numbers(hits@),
            decreases list.len() - i,
        {
            let hit = list[i];
            let ghost was = hits@;
            hits.push(hit);
            numbers = numbers && !has_nan_bits(hit.score);
            assert(forall|j: int| 0 <= j < was.len() ==> #[trigger] was[j] == hits@[j]);
            assert(hits@.last() == hit);
            assert(hits@ =~= before + list@.take(i + 1));
            i = i + 1;
        }
        assert(list@.take(list@.len() as int) =~= list@);
        s = s + 1;
    }
    assert(per_superfile@.take(per_superfile@.len() as int) =~= per_superfile@);
    if numbers {
        proof {
            assert(hits.len() == hits@.len());
            lemma_kept_hits_are_closest(hits@, k as nat);
        }
        closest_hits(&hits, k)
    } else {
        closest_hits(&keep_hits(&hits, k), k)
    }
}

/// Are the first hits in `order` those of `top`, and is no hit that is left
/// out closer than one of them?
pub open spec fn is_closest_prefix(
    hits: Seq<SuperfileHit>,
    order: Seq<usize>,
    top: Seq<SuperfileHit>,
) -> bool {
    &&& forall|i: int| 0 <= i < top.len() ==> #[trigger] top[i] == hits[order[i] as int]
    &&& forall|i: int, j: int|
        0 <= i < top.len() <= j < hits.len() ==> sort_key((#[trigger] top[i]).score) <= sort_key(
            hits[#[trigger] order[j] as int].score,
        )
}

// ---- What a search comes to -------------------------------------------------

/// A column has the metric of the first entry with its name, and the squared
/// Euclidean distance if there is none.
pub proof fn lemma_metric_is_that_of_the_column(
    columns: &[(String, Metric)],
    column: &str,
    metric: Metric,
)
    requires
        call_ensures(metric_of, (columns, column), metric),
    ensures
        forall|i: int|
            0 <= i < columns@.len() && (#[trigger] columns@[i]).0@ == column@ && (forall|j: int|
                0 <= j < i ==> (#[trigger] columns@[j]).0@ != column@) ==> metric
                == columns@[i].1,
        (forall|i: int| 0 <= i < columns@.len() ==> (#[trigger] columns@[i]).0@ != column@)
            ==> metric == Metric::L2Sq,
{
    assert forall|i: int|
        0 <= i < columns@.len() && (#[trigger] columns@[i]).0@ == column@ && (forall|j: int|
            0 <= j < i ==> (#[trigger] columns@[j]).0@ != column@) implies metric
        == columns@[i].1 by {
        lemma_metric_at(columns@, column@, i);
    }
    if forall|i: int| 0 <= i < columns@.len() ==> (#[trigger] columns@[i]).0@ != column@ {
        lemma_metric_at(columns@, column@, columns@.len() as int);
    }
}

proof fn lemma_metric_at(columns: Seq<(String, Metric)>, column: Seq<char>, i: int)
    requires
        0 <= i <= columns.len(),
        forall|j: int| 0 <= j < i ==> (#[trigger] columns[j]).0@ != column,
        i < columns.len() ==> columns[i].0@ == column,
    ensures
        metric_spec(columns, column) == if i < columns.len() {
            columns[i].1
        } else {
            Metric::L2Sq
        },
    decreases columns.len(),
{
    if i > 0 {
        let rest = columns.subrange(1, columns.len() as int);
        assert(columns[0].0@ != column);
        assert forall|j: int| 0 <= j < i - 1 implies (#[trigger] rest[j]).0@ != column by {
            assert(rest[j] == columns[j + 1]);
        }
        lemma_metric_at(rest, column, i - 1);
    }
}

/// The hits that survive are those whose row is not deleted, in their order.
pub proof fn lemma_filter_drops_the_deleted(
    hits: &mut Vec<SuperfileHit>,
    gone: Arc<RoaringBitmap>,
    res: Result<(), QueryError>,
)
    requires
        call_ensures(
            apply_tombstone_filter,
            (hits, Some(Ok::<Arc<RoaringBitmap>, SidecarCacheError>(gone))),
            res,
        ),
    ensures
        res is Ok,
        final(hits)@ == old(hits)@.filter(
            |h: SuperfileHit| !bitmap_contents(*gone).contains(h.local_doc_id),
        ),
{
    assert forall|rows: Set<u32>| #[trigger]
        surviving(old(hits)@, rows) == old(hits)@.filter(
            |h: SuperfileHit| !rows.contains(h.local_doc_id),
        ) by {
        lemma_surviving_filter(old(hits)@, rows);
    }
}

proof fn lemma_surviving_filter(hits: Seq<SuperfileHit>, gone: Set<u32>)
    ensures
        surviving(hits, gone) == hits.filter(|h: SuperfileHit| !gone.contains(h.local_doc_id)),
    decreases hits.len(),
{
    reveal(Seq::filter);
    if hits.len() > 0 {
        lemma_surviving_filter(hits.drop_last(), gone);
    }
}

/// An admitted row that is not deleted stays admitted, and no other row is.
pub proof fn lemma_deleted_rows_are_not_admitted(
    rows: &mut RoaringBitmap,
    gone: Arc<RoaringBitmap>,
    res: Result<(), QueryError>,
    row: u32,
)
    requires
        call_ensures(
            subtract_tombstones,
            (rows, Some(Ok::<Arc<RoaringBitmap>, SidecarCacheError>(gone))),
            res,
        ),
    ensures
        res is Ok,
        bitmap_contents(*final(rows)).contains(row) <==> bitmap_contents(*old(rows)).contains(row)
            && !bitmap_contents(*gone).contains(row),
{
}

/// A superfile for which rows are given has a set exactly if one of its lists
/// of rows is not empty, and of several it has the last that is not.
pub proof fn lemma_sets_are_those_given(
    pairs: Vec<(u128, RoaringBitmap)>,
    sets: AllowSets,
    i: int,
    row: u32,
)
    requires
        call_ensures(allow_sets, (pairs,), sets),
        0 <= i < pairs@.len(),
        exists|x: u32| bitmap_contents(pairs@[i].1).contains(x),
        forall|k: int|
            i < k < pairs@.len() && (#[trigger] pairs@[k]).0 == pairs@[i].0 ==> forall|x: u32|
                !bitmap_contents(pairs@[k].1).contains(x),
    ensures
        sets@.contains_key(pairs@[i].0),
        bitmap_contents(*sets@[pairs@[i].0]).contains(row) <==> bitmap_contents(
            pairs@[i].1,
        ).contains(row),
{
    lemma_collected_at(pairs@, i);
    assert(allow_view(sets@).contains_key(pairs@[i].0));
}

proof fn lemma_collected_at(pairs: Seq<(u128, RoaringBitmap)>, i: int)
    requires
        0 <= i < pairs.len(),
        exists|x: u32| bitmap_contents(pairs[i].1).contains(x),
        forall|k: int|
            i < k < pairs.len() && (#[trigger] pairs[k]).0 == pairs[i].0 ==> forall|x: u32|
                !bitmap_contents(pairs[k].1).contains(x),
    ensures
        collected(pairs).contains_key(pairs[i].0),
        collected(pairs)[pairs[i].0] == bitmap_contents(pairs[i].1),
    decreases pairs.len(),
{
    let last = pairs.len() - 1;
    assert(pairs[last] == pairs.last());
    if i < last {
        let rest = pairs.drop_last();
        assert(rest[i] == pairs[i]);
        assert forall|k: int| i < k < rest.len() && (#[trigger] rest[k]).0
            == rest[i].0 implies forall|x: u32| !bitmap_contents(rest[k].1).contains(x) by {
            assert(rest[k] == pairs[k]);
        }
        lemma_collected_at(rest, i);
        if pairs[last].0 == pairs[i].0 {
            assert(bitmap_contents(pairs[last].1) =~= Set::<u32>::empty());
        }
    }
}

/// A superfile all of whose lists of rows are empty has no set, and neither has
/// one that is not given.
pub proof fn lemma_empty_lists_admit_nothing(
    pairs: Vec<(u128, RoaringBitmap)>,
    sets: AllowSets,
    uri: u128,
)
    requires
        call_ensures(allow_sets, (pairs,), sets),
        forall|k: int|
            0 <= k < pairs@.len() && (#[trigger] pairs@[k]).0 == uri ==> forall|x: u32|
                !bitmap_contents(pairs@[k].1).contains(x),
    ensures
        !sets@.contains_key(uri),
{
    lemma_not_collected(pairs@, uri);
    assert(allow_view(sets@).contains_key(uri) == sets@.contains_key(uri));
}

proof fn lemma_not_collected(pairs: Seq<(u128, RoaringBitmap)>, uri: u128)
    requires
        forall|k: int|
            0 <= k < pairs.len() && (#[trigger] pairs[k]).0 == uri ==> forall|x: u32|
                !bitmap_contents(pairs[k].1).contains(x),
    ensures
        !collected(pairs).contains_key(uri),
    decreases pairs.len(),
{
    if pairs.len() > 0 {
        let rest = pairs.drop_last();
        let last = pairs.len() - 1;
        assert(pairs[last] == pairs.last());
        assert forall|k: int| 0 <= k < rest.len() && (#[trigger] rest[k]).0 == uri implies forall|
            x: u32,
        | !bitmap_contents(rest[k].1).contains(x) by {
            assert(rest[k] == pairs[k]);
        }
        lemma_not_collected(rest, uri);
        if pairs[last].0 == uri {
            assert(bitmap_contents(pairs[last].1) =~= Set::<u32>::empty());
        }
    }
}

/// The hits of all superfiles are those of each, in their order.
pub proof fn lemma_all_hits(per_superfile: Seq<Vec<SuperfileHit>>)
    ensures
        all_hits(per_superfile) == per_superfile.map_values(
            |hits: Vec<SuperfileHit>| hits@,
        ).flatten(),
    decreases per_superfile.len(),
{
    let lists = per_superfile.map_values(|hits: Vec<SuperfileHit>| hits@);
    lists.lemma_flatten_and_flatten_alt_are_equivalent();
    if per_superfile.len() > 0 {
        let rest = per_superfile.drop_last();
        let before = rest.map_values(|hits: Vec<SuperfileHit>| hits@);
        lemma_all_hits(rest);
        before.lemma_flatten_and_flatten_alt_are_equivalent();
        assert(lists.drop_last() =~= before);
    }
}

/// A merge of hits whose distances are numbers gives `k` of them, or all if
/// there are fewer, ascending in distance, and leaves out none that is closer
/// than one it gives; a hit is given as often as it is found at most.
pub proof fn lemma_merge_gives_the_closest(
    per_superfile: &[Vec<SuperfileHit>],
    k: usize,
    top: Vec<SuperfileHit>,
)
    requires
        call_ensures(top_k_ascending, (per_superfile, k), top),
        forall|i: int|
            0 <= i < all_hits(per_superfile@).len() ==> !is_nan(
                (#[trigger] all_hits(per_superfile@)[i]).score,
            ),
        all_hits(per_superfile@).len() <= usize::MAX,
    ensures
        ({
            let hits = per_superfile@.map_values(|l: Vec<SuperfileHit>| l@).flatten();
            &&& top@.len() == if k < hits.len() {
                k as int
            } else {
                hits.len() as int
            }
            &&& forall|i: int, j: int|
                0 <= i < j < top@.len() ==> order_key((#[trigger] top@[i]).score) <= order_key(
                    (#[trigger] top@[j]).score,
                )
            &&& exists|order: Seq<usize>|
                {
                    &&& #[trigger] order.no_duplicates()
                    &&& order.len() == hits.len()
                    &&& forall|i: int|
                        0 <= i < order.len() ==> 0 <= (#[trigger] order[i]) < hits.len()
                    &&& forall|i: int|
                        0 <= i < top@.len() ==> #[trigger] top@[i] == hits[order[i] as int]
                    &&& forall|i: int, j: int|
                        0 <= i < top@.len() <= j < hits.len() ==> order_key(
                            (#[trigger] top@[i]).score,
                        ) <= order_key(hits[(#[trigger] order[j]) as int].score)
                }
        }),
{
    lemma_all_hits(per_superfile@);
    let hits = all_hits(per_superfile@);
    let keys = hit_keys(hits);
    let order = sorted_order(keys);
    lemma_sorted_order(keys);
    assert(all_numbers(hits));
    assert(top@ == closest(hits, k as nat));
    assert forall|i: int, j: int| 0 <= i < top@.len() <= j < hits.len() implies order_key(
        (#[trigger] top@[i]).score,
    ) <= order_key(hits[(#[trigger] order[j]) as int].score) by {
        assert(comes_before(keys, order[i] as int, order[j] as int));
    }
    assert(order.no_duplicates());
}

proof fn lemma_rank_key_at(
    candidates: Seq<Candidate>,
    allow: Option<Map<u128, Set<u32>>>,
    n: int,
    s: int,
    p: int,
)
    requires
        0 <= s < n <= candidates.len(),
        0 <= p < ranked(candidates[s], allow).len(),
    ensures
        ranked_before(candidates, allow, s) + p < rank_keys(candidates, allow, n).len(),
        rank_keys(candidates, allow, n)[ranked_before(candidates, allow, s) + p] == sort_key(
            ranked(candidates[s], allow)[p].1,
        ),
    decreases n,
{
    lemma_ranked_len(candidates, allow, n - 1);
    if s < n - 1 {
        lemma_rank_key_at(candidates, allow, n - 1, s, p);
    }
}

proof fn lemma_kept_cluster_ids(
    clusters: Seq<(u32, u32)>,
    keys: Seq<u64>,
    budget: int,
    offset: int,
    id: u32,
)
    ensures
        kept_clusters(clusters, keys, budget, offset).contains(id) <==> exists|p: int|
            0 <= p < clusters.len() && (#[trigger] clusters[p]).0 == id && is_kept(
                keys,
                budget,
                offset + p,
            ),
    decreases clusters.len(),
{
    if clusters.len() > 0 {
        let rest = clusters.drop_last();
        let last = clusters.len() - 1;
        lemma_kept_cluster_ids(rest, keys, budget, offset, id);
        let before = kept_clusters(rest, keys, budget, offset);
        let all = kept_clusters(clusters, keys, budget, offset);
        if before.contains(id) {
            let k = choose|k: int| 0 <= k < before.len() && before[k] == id;
            assert(all[k] == id);
            let p = choose|p: int|
                0 <= p < rest.len() && (#[trigger] rest[p]).0 == id && is_kept(
                    keys,
                    budget,
                    offset + p,
                );
            assert(clusters[p].0 == id);
        }
        if is_kept(keys, budget, offset + last) && clusters[last].0 == id {
            assert(all[all.len() - 1] == id);
        }
        if all.contains(id) && !before.contains(id) {
            let k = choose|k: int| 0 <= k < all.len() && all[k] == id;
            if k < before.len() {
                assert(before[k] == id);
            }
            assert(clusters[last].0 == id);
        }
        if exists|p: int|
            0 <= p < clusters.len() && (#[trigger] clusters[p]).0 == id && is_kept(
                keys,
                budget,
                offset + p,
            ) {
            let p = choose|p: int|
                0 <= p < clusters.len() && (#[trigger] clusters[p]).0 == id && is_kept(
                    keys,
                    budget,
                    offset + p,
                );
            if p < last {
                assert(rest[p].0 == id);
            }
        }
    }
}

proof fn lemma_probe_is_listed(
    candidates: Seq<Candidate>,
    allow: Option<Map<u128, Set<u32>>>,
    keys: Seq<u64>,
    budget: int,
    n: int,
    s: int,
    probe: ProbeView,
)
    requires
        0 <= s < n <= candidates.len(),
    ensures
        probes(candidates, allow, keys, budget, n).contains((s, probe)) <==> probe_of(
            candidates[s],
            allow,
            keys,
            budget,
            ranked_before(candidates, allow, s) as int,
        ) == Some(probe),
    decreases n,
{
    let all = probes(candidates, allow, keys, budget, n);
    let rest = probes(candidates, allow, keys, budget, n - 1);
    if all.contains((s, probe)) {
        let k = choose|k: int| 0 <= k < all.len() && all[k] == (s, probe);
        if k < rest.len() {
            assert(rest[k] == (s, probe));
            lemma_probes_are_admitted(candidates, allow, keys, budget, n - 1, k);
        }
    }
    if s < n - 1 {
        lemma_probe_is_listed(candidates, allow, keys, budget, n - 1, s, probe);
        if rest.contains((s, probe)) {
            let k = choose|k: int| 0 <= k < rest.len() && rest[k] == (s, probe);
            assert(all[k] == (s, probe));
        }
    } else if probe_of(
        candidates[s],
        allow,
        keys,
        budget,
        ranked_before(candidates, allow, s) as int,
    ) == Some(probe) {
        assert(all[all.len() - 1] == (s, probe));
    }
}

/// Is the cluster `id` of the superfile at position `s` searched?
pub open spec fn is_searched(units: Seq<ProbeUnit>, s: int, id: u32) -> bool {
    exists|k: int|
        0 <= k < units.len() && (#[trigger] units[k]).superfile == s && units[k].probe is Clusters
            && units[k].probe->Clusters_0@.contains(id)
}

/// May the superfile be searched, and are its clusters ranked?
pub open spec fn is_ranked(candidate: Candidate, allow: Option<&AllowSets>) -> bool {
    &&& allow is Some ==> allow->0@.contains_key(candidate.uri.0)
    &&& candidate.clusters is Some
    &&& candidate.clusters->0@.len() > 0
}

proof fn lemma_searched(
    candidates: Seq<Candidate>,
    nprobe: usize,
    allow: Option<&AllowSets>,
    units: Seq<ProbeUnit>,
    s: int,
    p: int,
)
    requires
        ({
            let sets = optional_allow(allow);
            let n = candidates.len() as int;
            let keys = rank_keys(candidates, sets, n);
            let budget = probe_budget(nprobe, n_eligible(candidates, sets, n));
            units_view(units) == probes(candidates, sets, keys, budget, n)
        }),
        0 <= s < candidates.len(),
        is_ranked(candidates[s], allow),
        0 <= p < candidates[s].clusters->0@.len(),
        forall|a: int, b: int|
            0 <= a < b < candidates[s].clusters->0@.len() ==> (
            #[trigger] candidates[s].clusters->0@[a]).0 != (
            #[trigger] candidates[s].clusters->0@[b]).0,
    ensures
        ({
            let sets = optional_allow(allow);
            let n = candidates.len() as int;
            let keys = rank_keys(candidates, sets, n);
            let budget = probe_budget(nprobe, n_eligible(candidates, sets, n));
            let at = ranked_before(candidates, sets, s) + p;
            let cluster = candidates[s].clusters->0@[p];
            &&& is_searched(units, s, cluster.0) <==> is_kept(keys, budget, at)
            &&& 0 <= at < keys.len()
            &&& keys[at] == sort_key(cluster.1)
        }),
{
    broadcast use group_hash_axioms;

    let sets = optional_allow(allow);
    let n = candidates.len() as int;
    let keys = rank_keys(candidates, sets, n);
    let budget = probe_budget(nprobe, n_eligible(candidates, sets, n));
    let offset = ranked_before(candidates, sets, s) as int;
    let clusters = candidates[s].clusters->0@;
    let id = clusters[p].0;
    if allow is Some {
        assert(allow_view(allow->0@).contains_key(candidates[s].uri.0)
            == allow->0@.contains_key(candidates[s].uri.0));
    }
    assert(admitted(sets, candidates[s].uri.0));
    lemma_rank_key_at(candidates, sets, n, s, p);
    lemma_kept_cluster_ids(clusters, keys, budget, offset, id);
    let ids = kept_clusters(clusters, keys, budget, offset);
    if ids.contains(id) {
        let q = choose|q: int|
            0 <= q < clusters.len() && (#[trigger] clusters[q]).0 == id && is_kept(
                keys,
                budget,
                offset + q,
            );
        assert(q == p);
        let probe = ProbeView::Clusters(ids);
        lemma_probe_is_listed(candidates, sets, keys, budget, n, s, probe);
        let k = choose|k: int|
            0 <= k < units_view(units).len() && units_view(units)[k] == (s, probe);
        assert(units[k].superfile == s);
        assert(units[k].probe->Clusters_0@ == ids);
    }
    if is_searched(units, s, id) {
        let k = choose|k: int|
            0 <= k < units.len() && (#[trigger] units[k]).superfile == s && units[k].probe
                is Clusters && units[k].probe->Clusters_0@.contains(id);
        let probe = units[k].probe@;
        assert(units_view(units)[k] == (s, probe));
        assert(probes(candidates, sets, keys, budget, n).contains((s, probe)));
        lemma_probe_is_listed(candidates, sets, keys, budget, n, s, probe);
    }
}

/// Of two clusters of which one is searched and one is not, whichever
/// superfiles they are of, the searched one is not farther from the query.
pub proof fn lemma_searched_clusters_are_closest(
    candidates: &[Candidate],
    nprobe: usize,
    allow: Option<&AllowSets>,
    units: Vec<ProbeUnit>,
    s: int,
    p: int,
    t: int,
    q: int,
)
    requires
        call_ensures(plan_probes, (candidates, nprobe, allow), units),
        0 <= s < candidates@.len(),
        0 <= t < candidates@.len(),
        is_ranked(candidates@[s], allow),
        is_ranked(candidates@[t], allow),
        0 <= p < candidates@[s].clusters->0@.len(),
        0 <= q < candidates@[t].clusters->0@.len(),
        forall|i: int, a: int, b: int|
            0 <= i < candidates@.len() && candidates@[i].clusters is Some && 0 <= a < b
                < candidates@[i].clusters->0@.len() ==> (
            #[trigger] candidates@[i].clusters->0@[a]).0 != (
            #[trigger] candidates@[i].clusters->0@[b]).0,
        rank_keys(
            candidates@,
            optional_allow(allow),
            candidates@.len() as int,
        ).len() <= usize::MAX,
        is_searched(units@, s, candidates@[s].clusters->0@[p].0),
        !is_searched(units@, t, candidates@[t].clusters->0@[q].0),
    ensures
        order_key(candidates@[s].clusters->0@[p].1) <= order_key(candidates@[t].clusters->0@[q].1),
{
    let sets = optional_allow(allow);
    let n = candidates@.len() as int;
    let keys = rank_keys(candidates@, sets, n);
    let budget = probe_budget(nprobe, n_eligible(candidates@, sets, n));
    lemma_searched(candidates@, nprobe, allow, units@, s, p);
    lemma_searched(candidates@, nprobe, allow, units@, t, q);
    lemma_kept_are_closest(
        keys,
        budget,
        ranked_before(candidates@, sets, s) + p,
        ranked_before(candidates@, sets, t) + q,
    );
}

/// A superfile that may be searched and whose clusters are not ranked is
/// searched by its own choice of clusters; one that may not be searched is not
/// searched; no superfile is searched twice; and none is searched in no
/// cluster.
pub proof fn lemma_which_superfiles_are_searched(
    candidates: &[Candidate],
    nprobe: usize,
    allow: Option<&AllowSets>,
    units: Vec<ProbeUnit>,
)
    requires
        call_ensures(plan_probes, (candidates, nprobe, allow), units),
    ensures
        forall|s: int|
            #![trigger candidates@[s]]
            0 <= s < candidates@.len() && (allow is Some ==> allow->0@.contains_key(
                candidates@[s].uri.0,
            )) && (candidates@[s].clusters is None || candidates@[s].clusters->0@.len() == 0)
                ==> exists|k: int|
                0 <= k < units@.len() && (#[trigger] units@[k]).superfile == s && units@[k].probe
                    is Nprobe,
        forall|k: int|
            0 <= k < units@.len() ==> (#[trigger] units@[k]).superfile < candidates@.len() && (
            allow is Some ==> allow->0@.contains_key(
                candidates@[units@[k].superfile as int].uri.0,
            )),
        forall|j: int, k: int|
            0 <= j < k < units@.len() ==> (#[trigger] units@[j]).superfile < (
            #[trigger] units@[k]).superfile,
        forall|k: int|
            0 <= k < units@.len() && (#[trigger] units@[k]).probe is Clusters
                ==> units@[k].probe->Clusters_0@.len() > 0,
{
    broadcast use group_hash_axioms;

    let sets = optional_allow(allow);
    let n = candidates@.len() as int;
    let keys = rank_keys(candidates@, sets, n);
    let budget = probe_budget(nprobe, n_eligible(candidates@, sets, n));
    let all = probes(candidates@, sets, keys, budget, n);
    assert forall|s: int|
        #![trigger candidates@[s]]
        0 <= s < candidates@.len() && (allow is Some ==> allow->0@.contains_key(
            candidates@[s].uri.0,
        )) && (candidates@[s].clusters is None || candidates@[s].clusters->0@.len() == 0) implies
        exists|k: int|
            0 <= k < units@.len() && (#[trigger] units@[k]).superfile == s && units@[k].probe
                is Nprobe by {
        lemma_unranked_are_searched(candidates@, sets, keys, budget, n, s);
        let k = choose|k: int| 0 <= k < all.len() && all[k] == (s, ProbeView::Nprobe);
        assert(units_view(units@)[k] == (units@[k].superfile as int, units@[k].probe@));
        assert(units@[k].superfile == s);
    }
    assert forall|k: int| 0 <= k < units@.len() implies (#[trigger] units@[k]).superfile
        < candidates@.len() && (allow is Some ==> allow->0@.contains_key(
        candidates@[units@[k].superfile as int].uri.0,
    )) by {
        lemma_probes_are_admitted(candidates@, sets, keys, budget, n, k);
        assert(units_view(units@)[k] == (units@[k].superfile as int, units@[k].probe@));
        if allow is Some {
            let uri = candidates@[units@[k].superfile as int].uri.0;
            assert(allow_view(allow->0@).contains_key(uri) == allow->0@.contains_key(uri));
        }
    }
    assert forall|j: int, k: int| 0 <= j < k < units@.len() implies (
    #[trigger] units@[j]).superfile < (#[trigger] units@[k]).superfile by {
        lemma_probes_are_admitted(candidates@, sets, keys, budget, n, k);
        assert(units_view(units@)[k] == (units@[k].superfile as int, units@[k].probe@));
        assert(units_view(units@)[j] == (units@[j].superfile as int, units@[j].probe@));
        assert(all[j].0 < all[k].0);
    }
    assert forall|k: int| 0 <= k < units@.len() && (#[trigger] units@[k]).probe is Clusters implies
        units@[k].probe->Clusters_0@.len() > 0 by {
        lemma_probes_are_admitted(candidates@, sets, keys, budget, n, k);
        assert(units_view(units@)[k] == (units@[k].superfile as int, units@[k].probe@));
        let s = units@[k].superfile as int;
        assert(all.contains((s, units@[k].probe@)));
        lemma_probe_is_listed(candidates@, sets, keys, budget, n, s, units@[k].probe@);
    }
}

/// The budget is `nprobe` clusters for each superfile that takes part in the
/// ranking, and for one if none does, up to the largest number.
pub proof fn lemma_budget(
    candidates: Seq<Candidate>,
    allow: Option<Map<u128, Set<u32>>>,
    nprobe: usize,
)
    ensures
        ({
            let n = candidates.filter(
                |c: Candidate|
                    (allow is Some ==> allow->0.contains_key(c.uri.0)) && c.clusters is Some
                        && c.clusters->0@.len() > 0,
            ).len();
            let budget = probe_budget(
                nprobe,
                n_eligible(candidates, allow, candidates.len() as int),
            );
            &&& n > 0 && nprobe * n <= usize::MAX ==> budget == nprobe * n
            &&& n > 0 && nprobe * n > usize::MAX ==> budget == usize::MAX
            &&& n == 0 ==> budget == nprobe
        }),
{
    lemma_eligible_filter(candidates, allow, candidates.len() as int);
    assert(candidates.take(candidates.len() as int) =~= candidates);
}

proof fn lemma_eligible_filter(
    candidates: Seq<Candidate>,
    allow: Option<Map<u128, Set<u32>>>,
    n: int,
)
    requires
        0 <= n <= candidates.len(),
    ensures
        n_eligible(candidates, allow, n) == candidates.take(n).filter(
            |c: Candidate|
                (allow is Some ==> allow->0.contains_key(c.uri.0)) && c.clusters is Some
                    && c.clusters->0@.len() > 0,
        ).len(),
    decreases n,
{
    reveal(Seq::filter);
    if n > 0 {
        lemma_eligible_filter(candidates, allow, n - 1);
        assert(candidates.take(n).drop_last() =~= candidates.take(n - 1));
    }
}

/// A search ends at once only if it is for no neighbours, if no superfile may
/// hold any, if its predicate has no tokens, or if no row is admitted; otherwise
/// it goes on to what its kind of filter needs, and in the end to the superfiles.
pub proof fn lemma_search_goes_on(
    k: usize,
    begun: SearchStep,
    kind: FilterKind,
    n: usize,
    pruned: Result<SearchStep, QueryError>,
    n_tokens: Option<usize>,
    tokenized: SearchStep,
    allow: AllowSets,
    admitted: SearchStep,
)
    requires
        call_ensures(begin_search, (k,), begun),
        call_ensures(after_pruning, (kind, Ok::<usize, String>(n)), pruned),
        call_ensures(after_tokens, (n_tokens,), tokenized),
        call_ensures(after_candidates, (&allow,), admitted),
    ensures
        begun is Finish <==> k == 0,
        begun is Prune <==> k > 0,
        pruned is Ok,
        pruned->Ok_0 is Finish <==> n == 0,
        n > 0 && kind is Unfiltered ==> pruned->Ok_0 is FanOut,
        n > 0 && kind is Text ==> pruned->Ok_0 is Tokenize,
        n > 0 && kind is Plan ==> pruned->Ok_0 is Candidates,
        tokenized is Candidates <==> n_tokens is Some && n_tokens->0 > 0,
        tokenized is Finish <==> n_tokens is None || n_tokens->0 == 0,
        admitted is Finish <==> allow@.dom().len() == 0,
        admitted is FanOut <==> allow@.dom().len() > 0,
{
}

/// Waves make progress and end; without a filter there is one, and with a
/// filter none is larger than there are reader threads, of which at least one
/// counts.
pub proof fn lemma_waves(filtered: bool, reader_threads: usize, remaining: usize, n: usize)
    requires
        call_ensures(wave_len, (filtered, reader_threads, remaining), n),
    ensures
        n <= remaining,
        remaining > 0 ==> n > 0,
        !filtered ==> n == remaining,
        filtered && reader_threads > 0 ==> n <= reader_threads && (n < remaining ==> n
            == reader_threads),
        filtered && reader_threads == 0 ==> n <= 1,
{
}

/// The rows of a predicate are those that match, and of a plan those that it
/// admits.
pub proof fn lemma_rows_of_a_filter(
    docs: &[u32],
    matching: RoaringBitmap,
    evaluated: Option<RoaringBitmap>,
    planned: RoaringBitmap,
    row: u32,
)
    requires
        call_ensures(matching_rows, (docs,), matching),
        call_ensures(planned_rows, (evaluated,), planned),
    ensures
        bitmap_contents(matching).contains(row) <==> exists|i: int|
            0 <= i < docs@.len() && #[trigger] docs@[i] == row,
        bitmap_contents(planned).contains(row) <==> evaluated is Some && bitmap_contents(
            evaluated->0,
        ).contains(row),
{
    if docs@.to_set().contains(row) {
        assert(docs@.contains(row));
        let i = choose|i: int| 0 <= i < docs@.len() && docs@[i] == row;
        assert(docs@[i] == row);
    }
    if exists|i: int| 0 <= i < docs@.len() && #[trigger] docs@[i] == row {
        let i = choose|i: int| 0 <= i < docs@.len() && #[trigger] docs@[i] == row;
        assert(docs@.contains(row));
    }
}

/// A superfile that is searched brings its own admitted rows, if the search is
/// filtered.
pub proof fn lemma_searched_rows_are_admitted(
    candidates: &[Candidate],
    nprobe: usize,
    allow: AllowSets,
    units: Vec<ProbeUnit>,
    k: int,
    row: u32,
)
    requires
        call_ensures(plan_probes, (candidates, nprobe, Some(&allow)), units),
        0 <= k < units@.len(),
    ensures
        units@[k].allow is Some,
        bitmap_contents(*units@[k].allow->0).contains(row) <==> bitmap_contents(
            *allow@[candidates@[units@[k].superfile as int].uri.0],
        ).contains(row),
{
    broadcast use group_hash_axioms;

    lemma_which_superfiles_are_searched(candidates, nprobe, Some(&allow), units);
    let uri = candidates@[units@[k].superfile as int].uri.0;
    assert(allow@.contains_key(uri));
    assert(allow_view(allow@)[uri] == bitmap_contents(*allow@[uri]));
}

/// The ranking is of all clusters of the superfiles that may be searched, and of
/// nothing else: it has as many places as they have clusters together, and each
/// cluster has a place of its own with its distance.
pub proof fn lemma_ranking_is_of_all_clusters(
    candidates: Seq<Candidate>,
    allow: Option<Map<u128, Set<u32>>>,
    s: int,
    p: int,
)
    requires
        0 <= s < candidates.len(),
        allow is Some ==> allow->0.contains_key(candidates[s].uri.0),
        candidates[s].clusters is Some,
        0 <= p < candidates[s].clusters->0@.len(),
    ensures
        ({
            let keys = rank_keys(candidates, allow, candidates.len() as int);
            let count = |n: int, c: Candidate|
                n + if (allow is Some ==> allow->0.contains_key(c.uri.0)) && c.clusters is Some {
                    c.clusters->0@.len() as int
                } else {
                    0
                };
            let at = candidates.take(s).fold_left(0int, count) + p;
            &&& keys.len() == candidates.fold_left(0int, count)
            &&& 0 <= at < keys.len()
            &&& keys[at] == sort_key(candidates[s].clusters->0@[p].1)
        }),
{
    let count = |n: int, c: Candidate|
        n + if (allow is Some ==> allow->0.contains_key(c.uri.0)) && c.clusters is Some {
            c.clusters->0@.len() as int
        } else {
            0
        };
    let n = candidates.len() as int;
    lemma_ranked_sum(candidates, allow, n, count);
    lemma_ranked_sum(candidates, allow, s, count);
    lemma_ranked_len(candidates, allow, n);
    assert(candidates.take(n) =~= candidates);
    lemma_rank_key_at(candidates, allow, n, s, p);
}

proof fn lemma_ranked_sum(
    candidates: Seq<Candidate>,
    allow: Option<Map<u128, Set<u32>>>,
    n: int,
    count: spec_fn(int, Candidate) -> int,
)
    requires
        0 <= n <= candidates.len(),
        forall|k: int, c: Candidate| #[trigger]
            count(k, c) == k + if (allow is Some ==> allow->0.contains_key(c.uri.0)) && c.clusters
                is Some {
                c.clusters->0@.len() as int
            } else {
                0
            },
    ensures
        ranked_before(candidates, allow, n) == candidates.take(n).fold_left(0int, count),
    decreases n,
{
    if n > 0 {
        lemma_ranked_sum(candidates, allow, n - 1, count);
        assert(candidates.take(n).drop_last() =~= candidates.take(n - 1));
        assert(candidates.take(n).last() == candidates[n - 1]);
    } else {
        assert(candidates.take(0) =~= Seq::empty());
    }
}

/// Without a cache of deleted rows nothing is dropped; and where it fails, the
/// query fails and nothing is dropped.
pub proof fn lemma_nothing_is_dropped_unknown(
    hits: &mut Vec<SuperfileHit>,
    rows: &mut RoaringBitmap,
    deleted: Option<Result<Arc<RoaringBitmap>, SidecarCacheError>>,
    hits_res: Result<(), QueryError>,
    rows_res: Result<(), QueryError>,
    kind: FilterKind,
    text: String,
    pruned: Result<SearchStep, QueryError>,
)
    requires
        deleted is None || deleted->0 is Err,
        call_ensures(apply_tombstone_filter, (hits, deleted), hits_res),
        call_ensures(subtract_tombstones, (rows, deleted), rows_res),
        call_ensures(after_pruning, (kind, Err::<usize, String>(text)), pruned),
    ensures
        final(hits)@ == old(hits)@,
        bitmap_contents(*final(rows)) == bitmap_contents(*old(rows)),
        hits_res is Ok <==> deleted is None,
        rows_res is Ok <==> deleted is None,
        hits_res matches Err(e) ==> e is Store,
        rows_res matches Err(e) ==> e is Store,
        pruned == Err::<SearchStep, QueryError>(QueryError::ManifestLoad(text)),
{
}

} // verus!
