//! A point-in-time view of a table: its superfiles, and the manifest parts
//! that list them.

use std::collections::HashSet;
use std::sync::Arc;
use dashmap::DashMap;
use vstd::prelude::*;
use vstd::string::StringExecFns;
use crate::ids::{uuid_chars, uuid_text};
use crate::supertable::error::{OpenError, OpenFault};
use crate::supertable::manifest::error::PartFault;
use crate::supertable::manifest::frame::blake3_digest;
use crate::supertable::manifest::part::{
    decode, entries_view, lemma_part_is_checked, part_of, refusals, same_hash, ContentHash,
    EntryView, ManifestPart, PartId, PartView, Refusals, RefusedSummary, SuperfileEntry,
};
use crate::text::hex;

verus! {

/// A manifest part as the snapshot holds it: the digest of its bytes, and the
/// part, unless it is to be loaded when it is first asked for.
pub type PartCell = (ContentHash, Option<Arc<ManifestPart>>);

/// [`PartCell`] over sequences.
#[verifier::ext_equal]
pub struct CellView {
    pub hash: Seq<u8>,
    pub part: Option<PartView>,
}

/// The parts of a snapshot by their identifiers.
pub type Cells = Map<u128, CellView>;

/// The cell over sequences.
pub open spec fn cell_view(cell: PartCell) -> CellView {
    CellView {
        hash: cell.0@,
        part: match cell.1 {
            Some(part) => Some(part@),
            None => None,
        },
    }
}

/// The parts that a snapshot holds.
pub uninterp spec fn cells_contents(cells: DashMap<u128, PartCell>) -> Map<u128, CellView>;

/// A map without parts. Calls `DashMap::new`.
#[verifier::external_body]
pub(crate) fn new_cells() -> (cells: DashMap<u128, PartCell>)
    ensures
        cells_contents(cells).dom() == Set::<u128>::empty(),
{
    DashMap::new()
}

/// Sets a part. Calls `DashMap::insert`.
#[verifier::external_body]
fn cells_insert(cells: &mut DashMap<u128, PartCell>, part_id: u128, cell: PartCell)
    ensures
        cells_contents(*final(cells)) == cells_contents(*old(cells)).insert(
            part_id,
            cell_view(cell),
        ),
{
    cells.insert(part_id, cell);
}

/// A part, if the map has it. Calls `DashMap::get`.
#[verifier::external_body]
fn cells_get(cells: &DashMap<u128, PartCell>, part_id: u128) -> (res: Option<PartCell>)
    ensures
        res is Some <==> cells_contents(*cells).contains_key(part_id),
        res matches Some(cell) ==> cell_view(cell) == cells_contents(*cells)[part_id],
{
    cells.get(&part_id).map(|cell| cell.value().clone())
}

/// How many parts the map has. Calls `DashMap::len`.
#[verifier::external_body]
pub(crate) fn cells_len(cells: &DashMap<u128, PartCell>) -> (len: usize)
    ensures
        len == cells_contents(*cells).dom().len(),
{
    cells.len()
}

/// A manifest part as a list names it. The identifier stays when the part is
/// rewritten; the digest and the place of its bytes do not.
#[derive(Debug, Clone, PartialEq, Eq)]
pub struct ListedPart {
    pub part_id: PartId,
    pub content_hash: ContentHash,
    pub uri: String,
}

/// [`ListedPart`] over sequences.
#[verifier::ext_equal]
pub struct ListedView {
    pub id: u128,
    pub hash: Seq<u8>,
    pub uri: Seq<char>,
}

impl View for ListedPart {
    type V = ListedView;

    open spec fn view(&self) -> ListedView {
        ListedView { id: self.part_id.0, hash: self.content_hash@, uri: self.uri@ }
    }
}

impl ListedPart {
    /// A copy.
    fn copy(&self) -> (copy: Self)
        ensures
            copy@ == self@,
    {
        ListedPart {
            part_id: self.part_id,
            content_hash: self.content_hash,
            uri: self.uri.as_str().to_owned(),
        }
    }
}

/// The listed parts over sequences.
pub open spec fn listed_view(parts: Seq<ListedPart>) -> Seq<ListedView> {
    parts.map_values(|p: ListedPart| p@)
}

/// What a snapshot reads of a manifest list: the parts, in their order, and
/// the digest of the options that the table was written with.
#[derive(Debug)]
pub struct ManifestList {
    pub parts: Vec<ListedPart>,
    pub options_hash: ContentHash,
}

/// [`ManifestList`] over sequences.
#[verifier::ext_equal]
pub struct ListView {
    pub parts: Seq<ListedView>,
    pub options_hash: Seq<u8>,
}

impl View for ManifestList {
    type V = ListView;

    open spec fn view(&self) -> ListView {
        ListView { parts: listed_view(self.parts@), options_hash: self.options_hash@ }
    }
}

/// A point-in-time view of a table.
pub struct Manifest {
    pub manifest_id: u64,
    pub superfiles: Vec<Arc<SuperfileEntry>>,
    pub list: Option<ManifestList>,
    pub parts: DashMap<u128, PartCell>,
}

/// [`Manifest`] over sequences and maps.
#[verifier::ext_equal]
pub struct ManifestView {
    pub manifest_id: u64,
    pub superfiles: Seq<EntryView>,
    pub list: Option<ListView>,
    pub parts: Cells,
}

impl View for Manifest {
    type V = ManifestView;

    open spec fn view(&self) -> ManifestView {
        ManifestView {
            manifest_id: self.manifest_id,
            superfiles: entries_view(self.superfiles@),
            list: match self.list {
                Some(list) => Some(list@),
                None => None,
            },
            parts: cells_contents(self.parts),
        }
    }
}

/// The rows of all superfiles together.
pub open spec fn docs_total(superfiles: Seq<EntryView>) -> nat
    decreases superfiles.len(),
{
    if superfiles.len() == 0 {
        0
    } else {
        docs_total(superfiles.drop_last()) + superfiles.last().n_docs as nat
    }
}

/// The superfiles of all parts, one part after the other.
pub open spec fn superfiles_of(parts: Seq<PartView>) -> Seq<EntryView>
    decreases parts.len(),
{
    if parts.len() == 0 {
        Seq::empty()
    } else {
        superfiles_of(parts.drop_last()) + parts.last().superfiles
    }
}

/// The rows of two lists of superfiles together are the rows of both: what is
/// appended adds its rows.
pub proof fn lemma_appended_rows_count(a: Seq<EntryView>, b: Seq<EntryView>)
    ensures
        docs_total(a + b) == docs_total(a) + docs_total(b),
    decreases b.len(),
{
    if b.len() > 0 {
        assert((a + b).drop_last() =~= a + b.drop_last());
        lemma_appended_rows_count(a, b.drop_last());
    } else {
        assert(a + b =~= a);
    }
}

proof fn lemma_docs_total_grows(superfiles: Seq<EntryView>, n: int)
    requires
        0 <= n <= superfiles.len(),
    ensures
        docs_total(superfiles.take(n)) <= docs_total(superfiles),
    decreases superfiles.len() - n,
{
    if n == superfiles.len() {
        assert(superfiles.take(n) =~= superfiles);
    } else {
        lemma_docs_total_grows(superfiles, n + 1);
        assert(superfiles.take(n + 1).drop_last() =~= superfiles.take(n));
    }
}

/// Copies the shared entries behind those in `out`.
pub(crate) fn append_shared(
    out: &mut Vec<Arc<SuperfileEntry>>,
    entries: &Vec<Arc<SuperfileEntry>>,
)
    ensures
        entries_view(final(out)@) == entries_view(old(out)@) + entries_view(entries@),
{
    let mut i: usize = 0;
    while i < entries.len()
        invariant
            i <= entries@.len(),
            entries_view(out@) == entries_view(old(out)@) + entries_view(entries@.take(i as int)),
        decreases entries.len() - i,
    {
        let entry = Arc::clone(&entries[i]);
        let ghost before = out@;
        out.push(entry);
        assert(entry == entries@[i as int]);
        assert(entries_view(out@) =~= entries_view(before).push(entry@));
        assert(entries_view(out@) =~= entries_view(old(out)@) + entries_view(
            entries@.take(i + 1),
        ));
        i = i + 1;
    }
    assert(entries@.take(entries@.len() as int) =~= entries@);
}

impl Manifest {
    /// The snapshot of a table without superfiles.
    pub fn empty() -> (manifest: Self)
        ensures
            manifest@ == (ManifestView {
                manifest_id: 0,
                superfiles: Seq::empty(),
                list: None,
                parts: Map::empty(),
            }),
    {
        let manifest = Manifest {
            manifest_id: 0,
            superfiles: Vec::new(),
            list: None,
            parts: new_cells(),
        };
        assert(manifest@.parts =~= Map::empty());
        assert(manifest@.superfiles =~= Seq::empty());
        manifest
    }

    /// The next snapshot, with more superfiles.
    pub fn with_appended(&self, entries: &Vec<Arc<SuperfileEntry>>) -> (next: Self)
        requires
            self.manifest_id < u64::MAX,
        ensures
            next@ == (ManifestView {
                manifest_id: (self@.manifest_id + 1) as u64,
                superfiles: self@.superfiles + entries_view(entries@),
                list: None,
                parts: Map::empty(),
            }),
    {
        let mut superfiles: Vec<Arc<SuperfileEntry>> = Vec::new();
        append_shared(&mut superfiles, &self.superfiles);
        append_shared(&mut superfiles, entries);
        let next = Manifest {
            manifest_id: self.manifest_id + 1,
            superfiles,
            list: None,
            parts: new_cells(),
        };
        assert(next@.parts =~= Map::empty());
        assert(next@.superfiles =~= self@.superfiles + entries_view(entries@));
        next
    }

    /// The rows of all superfiles together.
    pub fn n_docs_total(&self) -> (total: u64)
        requires
            docs_total(self@.superfiles) <= u64::MAX,
        ensures
            total == docs_total(self@.superfiles),
    {
        let mut total: u64 = 0;
        let mut i: usize = 0;
        assert(self@.superfiles.take(0) =~= Seq::empty());
        while i < self.superfiles.len()
            invariant
                i <= self.superfiles@.len(),
                self@.superfiles.len() == self.superfiles@.len(),
                docs_total(self@.superfiles) <= u64::MAX,
                total == docs_total(self@.superfiles.take(i as int)),
            decreases self.superfiles.len() - i,
        {
            proof {
                assert(self@.superfiles.take(i + 1).drop_last() =~= self@.superfiles.take(
                    i as int,
                ));
                lemma_docs_total_grows(self@.superfiles, i + 1);
            }
            total = total + self.superfiles[i].n_docs;
            i = i + 1;
        }
        assert(self@.superfiles.take(self@.superfiles.len() as int) =~= self@.superfiles);
        total
    }

    /// The superfiles, which a cache must not evict.
    pub fn pinned_uris(&self) -> (uris: HashSet<u128>)
        ensures
            forall|uri: u128| #[trigger]
                uris@.contains(uri) <==> exists|i: int|
                    0 <= i < self@.superfiles.len() && (#[trigger] self@.superfiles[i]).uri == uri,
    {
        broadcast use vstd::std_specs::hash::group_hash_axioms;

        let mut uris: HashSet<u128> = HashSet::new();
        let mut i: usize = 0;
        while i < self.superfiles.len()
            invariant
                i <= self.superfiles@.len(),
                self@.superfiles.len() == self.superfiles@.len(),
                forall|uri: u128| #[trigger]
                    uris@.contains(uri) <==> exists|k: int|
                        0 <= k < i && (#[trigger] self@.superfiles[k]).uri == uri,
            decreases self.superfiles.len() - i,
        {
            let ghost before = uris@;
            let uri = self.superfiles[i].uri.0;
            uris.insert(uri);
            proof {
                assert(self@.superfiles[i as int].uri == uri);
                assert forall|u: u128| #[trigger] uris@.contains(u) <==> exists|k: int|
                    0 <= k < i + 1 && (#[trigger] self@.superfiles[k]).uri == u by {
                    if before.contains(u) {
                        let k = choose|k: int|
                            0 <= k < i && (#[trigger] self@.superfiles[k]).uri == u;
                        assert(self@.superfiles[k].uri == u);
                    }
                }
            }
            i = i + 1;
        }
        uris
    }
}

// ---- From a list and its parts ----------------------------------------------

/// Does the listed part have to be fetched? It does if it is not at hand, or
/// at hand with other bytes; and, if every part is to be loaded, if it is not
/// loaded yet.
pub open spec fn needs(at_hand: Cells, listed: ListedView, eager: bool) -> bool {
    ||| !at_hand.contains_key(listed.id)
    ||| at_hand[listed.id].hash != listed.hash
    ||| eager && at_hand[listed.id].part is None
}

/// The listed parts that have to be fetched, in their order.
pub open spec fn missing_of(at_hand: Cells, listed: Seq<ListedView>, eager: bool) -> Seq<ListedView>
    decreases listed.len(),
{
    if listed.len() == 0 {
        Seq::empty()
    } else {
        let rest = missing_of(at_hand, listed.drop_last(), eager);
        if needs(at_hand, listed.last(), eager) {
            rest.push(listed.last())
        } else {
            rest
        }
    }
}

/// The bytes of a part as they came from storage, and the summaries in them
/// that their codecs refuse.
#[derive(Debug, Clone)]
pub struct PartBytes {
    pub bytes: Vec<u8>,
    pub refused: Vec<RefusedSummary>,
}

/// What storage gave for a part: its bytes, or why there are none.
pub type Fetched = Result<PartBytes, String>;

/// [`Fetched`] over sequences.
pub open spec fn fetched_view(fetched: Fetched) -> Result<(Seq<u8>, Refusals), Seq<char>> {
    match fetched {
        Ok(found) => Ok((found.bytes@, refusals(found.refused@))),
        Err(text) => Err(text@),
    }
}

/// The message about bytes that have another digest than the list says.
pub open spec fn mismatch_message(expected: Seq<u8>, actual: Seq<u8>) -> Seq<char> {
    "content hash mismatch: expected blake3:"@ + hex(expected) + ", got blake3:"@ + hex(actual)
}

/// The part that fetched bytes are, or why they are not the listed part: they
/// must have its digest, and decode.
pub open spec fn load_of(
    hash: Seq<u8>,
    fetched: Result<(Seq<u8>, Refusals), Seq<char>>,
) -> Result<PartView, Seq<char>> {
    match fetched {
        Err(text) => Err(text),
        Ok((bytes, refusals)) => if blake3_digest(bytes) != hash {
            Err(mismatch_message(hash, blake3_digest(bytes)))
        } else {
            match part_of(bytes, refusals) {
                Ok(part) => Ok(part),
                Err(fault) => Err(fault.message()),
            }
        },
    }
}

/// The outcomes of loading the missing parts.
pub open spec fn loads_of(missing: Seq<ListedView>, fetched: Seq<Fetched>) -> Seq<
    Result<PartView, Seq<char>>,
> {
    Seq::new(missing.len(), |k: int| load_of(missing[k].hash, fetched_view(fetched[k])))
}

/// The first load that failed.
pub open spec fn first_failed<T, E>(loads: Seq<Result<T, E>>) -> Option<int>
    decreases loads.len(),
{
    if loads.len() == 0 {
        None
    } else {
        match first_failed(loads.drop_last()) {
            Some(i) => Some(i),
            None => if loads.last() is Err {
                Some(loads.len() - 1)
            } else {
                None
            },
        }
    }
}

/// The cell of the listed part at position `i`: what is at hand if it need not
/// be fetched, else what was loaded, or nothing yet.
pub open spec fn cell_at(
    at_hand: Cells,
    listed: Seq<ListedView>,
    eager: bool,
    loads: Seq<Result<PartView, Seq<char>>>,
    i: int,
) -> CellView {
    if !needs(at_hand, listed[i], eager) {
        at_hand[listed[i].id]
    } else {
        CellView {
            hash: listed[i].hash,
            part: if eager {
                Some(loads[missing_of(at_hand, listed.take(i), eager).len() as int]->Ok_0)
            } else {
                None
            },
        }
    }
}

/// The cells of the listed parts, by position.
pub open spec fn resolved(
    at_hand: Cells,
    listed: Seq<ListedView>,
    eager: bool,
    loads: Seq<Result<PartView, Seq<char>>>,
) -> Seq<CellView> {
    Seq::new(listed.len(), |i: int| cell_at(at_hand, listed, eager, loads, i))
}

/// The cells by the identifiers of the listed parts.
pub open spec fn cells_of(listed: Seq<ListedView>, cells: Seq<CellView>) -> Cells
    decreases listed.len(),
{
    if listed.len() == 0 {
        Map::empty()
    } else {
        cells_of(listed.drop_last(), cells.drop_last()).insert(listed.last().id, cells.last())
    }
}

/// The parts in cells that are loaded.
pub open spec fn parts_in(cells: Seq<CellView>) -> Seq<PartView> {
    cells.map_values(|c: CellView| c.part->0)
}

/// The snapshot that a list leads to. Only with all parts loaded are the
/// superfiles listed flat.
pub open spec fn built(
    at_hand: Cells,
    manifest_id: u64,
    list: ListView,
    eager: bool,
    loads: Seq<Result<PartView, Seq<char>>>,
) -> ManifestView {
    let cells = resolved(at_hand, list.parts, eager, loads);
    ManifestView {
        manifest_id,
        superfiles: if eager {
            superfiles_of(parts_in(cells))
        } else {
            Seq::empty()
        },
        list: Some(list),
        parts: cells_of(list.parts, cells),
    }
}

/// Is `part` what the bytes with the digest `hash` decode to?
pub open spec fn stored_under(part: PartView, hash: Seq<u8>) -> bool {
    exists|bytes: Seq<u8>| #[trigger]
        blake3_digest(bytes) == hash && part_of(bytes, Map::empty()) == Ok::<PartView, PartFault>(
            part,
        )
}

/// Is each loaded part what the bytes with its digest decode to?
pub open spec fn is_content_addressed(cells: Cells) -> bool {
    forall|id: u128| #[trigger]
        cells.contains_key(id) && cells[id].part is Some ==> stored_under(
            cells[id].part->0,
            cells[id].hash,
        )
}

proof fn lemma_missing_grows(at_hand: Cells, listed: Seq<ListedView>, eager: bool, i: int)
    requires
        0 <= i <= listed.len(),
    ensures
        missing_of(at_hand, listed.take(i), eager).is_prefix_of(missing_of(at_hand, listed, eager)),
    decreases listed.len() - i,
{
    if i == listed.len() {
        assert(listed.take(i) =~= listed);
    } else {
        assert(listed.take(i + 1).drop_last() =~= listed.take(i));
        lemma_missing_grows(at_hand, listed, eager, i + 1);
    }
}

/// The missing part at its place: the part at position `i`, if it has to be
/// fetched, comes behind the missing ones before it.
proof fn lemma_missing_at(at_hand: Cells, listed: Seq<ListedView>, eager: bool, i: int)
    requires
        0 <= i < listed.len(),
        needs(at_hand, listed[i], eager),
    ensures
        ({
            let k = missing_of(at_hand, listed.take(i), eager).len() as int;
            let missing = missing_of(at_hand, listed, eager);
            k < missing.len() && missing[k] == listed[i]
        }),
{
    let before = missing_of(at_hand, listed.take(i), eager);
    let now = missing_of(at_hand, listed.take(i + 1), eager);
    assert(listed.take(i + 1).drop_last() =~= listed.take(i));
    assert(now == before.push(listed[i]));
    lemma_missing_grows(at_hand, listed, eager, i + 1);
    assert(now[before.len() as int] == missing_of(at_hand, listed, eager)[before.len() as int]);
}

proof fn lemma_none_failed<T, E>(loads: Seq<Result<T, E>>, k: int)
    requires
        first_failed(loads) is None,
        0 <= k < loads.len(),
    ensures
        loads[k] is Ok,
    decreases loads.len(),
{
    if k < loads.len() - 1 {
        lemma_none_failed(loads.drop_last(), k);
        assert(loads.drop_last()[k] == loads[k]);
    }
}

proof fn lemma_cells_of(listed: Seq<ListedView>, cells: Seq<CellView>, id: u128)
    requires
        listed.len() == cells.len(),
    ensures
        cells_of(listed, cells).contains_key(id) <==> exists|i: int|
            0 <= i < listed.len() && (#[trigger] listed[i]).id == id,
        cells_of(listed, cells).contains_key(id) ==> exists|i: int|
            0 <= i < listed.len() && (#[trigger] listed[i]).id == id && cells_of(listed, cells)[id]
                == cells[i],
    decreases listed.len(),
{
    if listed.len() > 0 {
        let rest = listed.drop_last();
        let last = listed.len() - 1;
        lemma_cells_of(rest, cells.drop_last(), id);
        if listed[last].id == id {
            assert(cells_of(listed, cells)[id] == cells[last]);
        } else {
            if exists|i: int| 0 <= i < listed.len() && (#[trigger] listed[i]).id == id {
                let i = choose|i: int| 0 <= i < listed.len() && (#[trigger] listed[i]).id == id;
                assert(rest[i].id == id);
            }
            if cells_of(rest, cells.drop_last()).contains_key(id) {
                let i = choose|i: int|
                    0 <= i < rest.len() && (#[trigger] rest[i]).id == id && cells_of(
                        rest,
                        cells.drop_last(),
                    )[id] == cells.drop_last()[i];
                assert(listed[i].id == id);
            }
        }
    }
}

/// A new snapshot has a cell for each listed part and for no other. A part
/// whose identifier and digest are at hand, and that is loaded if all are to
/// be, is taken over as it is and not fetched; every other one is fetched.
pub proof fn lemma_parts_are_inherited(
    at_hand: Cells,
    listed: Seq<ListedView>,
    eager: bool,
    loads: Seq<Result<PartView, Seq<char>>>,
    i: int,
)
    requires
        0 <= i < listed.len(),
    ensures
        cells_of(listed, resolved(at_hand, listed, eager, loads)).contains_key(listed[i].id),
        forall|id: u128| #[trigger]
            cells_of(listed, resolved(at_hand, listed, eager, loads)).contains_key(id)
                ==> exists|k: int| 0 <= k < listed.len() && (#[trigger] listed[k]).id == id,
        needs(at_hand, listed[i], eager) ==> missing_of(at_hand, listed, eager).contains(listed[i]),
        !needs(at_hand, listed[i], eager) ==> resolved(at_hand, listed, eager, loads)[i]
            == at_hand[listed[i].id] && !missing_of(at_hand, listed, eager).contains(listed[i]),
{
    let cells = resolved(at_hand, listed, eager, loads);
    lemma_cells_of(listed, cells, listed[i].id);
    assert forall|id: u128| #[trigger] cells_of(listed, cells).contains_key(id) implies exists|
        k: int,
    | 0 <= k < listed.len() && (#[trigger] listed[k]).id == id by {
        lemma_cells_of(listed, cells, id);
    }
    if needs(at_hand, listed[i], eager) {
        lemma_missing_at(at_hand, listed, eager, i);
    } else {
        lemma_missing_are_needed(at_hand, listed, eager);
    }
}

proof fn lemma_missing_are_needed(at_hand: Cells, listed: Seq<ListedView>, eager: bool)
    ensures
        forall|k: int|
            0 <= k < missing_of(at_hand, listed, eager).len() ==> needs(
                at_hand,
                #[trigger] missing_of(at_hand, listed, eager)[k],
                eager,
            ),
    decreases listed.len(),
{
    if listed.len() > 0 {
        lemma_missing_are_needed(at_hand, listed.drop_last(), eager);
        let rest = missing_of(at_hand, listed.drop_last(), eager);
        let all = missing_of(at_hand, listed, eager);
        assert forall|k: int| 0 <= k < all.len() implies needs(
            at_hand,
            #[trigger] all[k],
            eager,
        ) by {
            if k < rest.len() {
                assert(all[k] == rest[k]);
            }
        }
    }
}

/// Each listed part of a new snapshot has the listed digest, and is, as far as
/// it is loaded, what the bytes with that digest decode to. If all parts are
/// loaded, every listed part is.
pub proof fn lemma_listed_parts_have_their_hash(
    at_hand: Cells,
    listed: Seq<ListedView>,
    eager: bool,
    fetched: Seq<Fetched>,
)
    requires
        is_content_addressed(at_hand),
        eager ==> first_failed(loads_of(missing_of(at_hand, listed, eager), fetched)) is None,
    ensures
        ({
            let loads = loads_of(missing_of(at_hand, listed, eager), fetched);
            let cells = resolved(at_hand, listed, eager, loads);
            &&& forall|i: int|
                0 <= i < listed.len() ==> (#[trigger] cells[i]).hash == listed[i].hash && (eager
                    ==> cells[i].part is Some) && (cells[i].part is Some ==> stored_under(
                    cells[i].part->0,
                    listed[i].hash,
                ))
            &&& is_content_addressed(cells_of(listed, cells))
        }),
{
    let missing = missing_of(at_hand, listed, eager);
    let loads = loads_of(missing, fetched);
    let cells = resolved(at_hand, listed, eager, loads);
    assert forall|i: int| 0 <= i < listed.len() implies (#[trigger] cells[i]).hash
        == listed[i].hash && (eager ==> cells[i].part is Some) && (cells[i].part is Some
        ==> stored_under(cells[i].part->0, listed[i].hash)) by {
        if needs(at_hand, listed[i], eager) {
            lemma_missing_at(at_hand, listed, eager, i);
            let k = missing_of(at_hand, listed.take(i), eager).len() as int;
            if eager {
                lemma_none_failed(loads, k);
                assert(loads[k] == load_of(listed[i].hash, fetched_view(fetched[k])));
                let (bytes, refusals) = fetched_view(fetched[k])->Ok_0;
                lemma_part_is_checked(bytes, refusals);
                assert(blake3_digest(bytes) == listed[i].hash);
            }
        } else {
            assert(at_hand.contains_key(listed[i].id));
        }
    }
    assert forall|id: u128| #[trigger]
        cells_of(listed, cells).contains_key(id) && cells_of(listed, cells)[id].part is Some implies
        stored_under(cells_of(listed, cells)[id].part->0, cells_of(listed, cells)[id].hash) by {
        lemma_cells_of(listed, cells, id);
        let i = choose|i: int|
            0 <= i < listed.len() && (#[trigger] listed[i]).id == id && cells_of(listed, cells)[id]
                == cells[i];
        assert(cells[i].hash == listed[i].hash);
    }
}

/// Are the superfiles those of the listed parts, in the order of the list, each
/// part being what the bytes with its listed digest decode to?
pub open spec fn lists_stored_parts(superfiles: Seq<EntryView>, listed: Seq<ListedView>) -> bool {
    exists|parts: Seq<PartView>| #[trigger]
        superfiles_of(parts) == superfiles && parts.len() == listed.len() && forall|i: int|
            0 <= i < parts.len() ==> stored_under(#[trigger] parts[i], listed[i].hash)
}

/// With all parts loaded, a new snapshot lists the superfiles of the parts that
/// are stored under the listed digests.
pub proof fn lemma_superfiles_are_those_listed(
    at_hand: Cells,
    manifest_id: u64,
    list: ListView,
    fetched: Seq<Fetched>,
)
    requires
        is_content_addressed(at_hand),
        first_failed(loads_of(missing_of(at_hand, list.parts, true), fetched)) is None,
    ensures
        lists_stored_parts(
            built(
                at_hand,
                manifest_id,
                list,
                true,
                loads_of(missing_of(at_hand, list.parts, true), fetched),
            ).superfiles,
            list.parts,
        ),
{
    lemma_listed_parts_have_their_hash(at_hand, list.parts, true, fetched);
    let loads = loads_of(missing_of(at_hand, list.parts, true), fetched);
    let cells = resolved(at_hand, list.parts, true, loads);
    let parts = parts_in(cells);
    assert forall|i: int| 0 <= i < parts.len() implies stored_under(
        #[trigger] parts[i],
        list.parts[i].hash,
    ) by {
        assert(cells[i].part is Some);
    }
}

/// Does the listed part have to be fetched?
fn is_needed(cells: &DashMap<u128, PartCell>, listed: &ListedPart, eager: bool) -> (res: bool)
    ensures
        res == needs(cells_contents(*cells), listed@, eager),
{
    match cells_get(cells, listed.part_id.0) {
        Some((hash, part)) => !same_hash(&hash, &listed.content_hash) || (eager
            && part.is_none()),
        None => true,
    }
}

/// The listed parts that have to be fetched, in their order.
pub(crate) fn missing_parts(
    cells: &DashMap<u128, PartCell>,
    parts: &Vec<ListedPart>,
    eager: bool,
) -> (missing: Vec<ListedPart>)
    ensures
        listed_view(missing@) == missing_of(cells_contents(*cells), listed_view(parts@), eager),
{
    let ghost listed = listed_view(parts@);
    let mut missing: Vec<ListedPart> = Vec::new();
    let mut i: usize = 0;
    assert(listed_view(missing@) =~= Seq::empty());
    assert(listed.take(0) =~= Seq::empty());
    while i < parts.len()
        invariant
            i <= parts@.len(),
            listed == listed_view(parts@),
            listed_view(missing@) == missing_of(
                cells_contents(*cells),
                listed.take(i as int),
                eager,
            ),
        decreases parts.len() - i,
    {
        let ghost before = missing@;
        assert(listed.take(i + 1).drop_last() =~= listed.take(i as int));
        if is_needed(cells, &parts[i], eager) {
            let part = parts[i].copy();
            missing.push(part);
            assert(listed_view(missing@) =~= listed_view(before).push(part@));
        }
        i = i + 1;
    }
    assert(listed.take(parts@.len() as int) =~= listed);
    missing
}

/// The error for a part that was not loaded.
pub open spec fn part_load_fault(part_id: u128, cause: Seq<char>) -> OpenFault {
    OpenFault::ManifestPartLoad { part_id: uuid_chars(part_id), source: cause }
}

/// The listed part, from what storage gave for it: the bytes must have the
/// listed digest, and decode.
pub fn load_part(listed: &ListedPart, fetched: &Fetched) -> (res: Result<Arc<ManifestPart>, String>)
    ensures
        match load_of(listed@.hash, fetched_view(*fetched)) {
            Ok(part) => res matches Ok(found) && found@ == part,
            Err(text) => res matches Err(e) && e@ == text,
        },
{
    match fetched {
        Err(text) => Err(text.as_str().to_owned()),
        Ok(given) => {
            let found = ContentHash::of(&given.bytes);
            if !same_hash(&found, &listed.content_hash) {
                let mut text = "content hash mismatch: expected ".to_owned();
                text.append(&listed.content_hash.display_text());
                text.append(", got ");
                text.append(&found.display_text());
                proof {
                    reveal_strlit("content hash mismatch: expected blake3:");
                    reveal_strlit("content hash mismatch: expected ");
                    reveal_strlit(", got blake3:");
                    reveal_strlit(", got ");
                    reveal_strlit("blake3:");
                    assert(text@ =~= mismatch_message(listed@.hash, found@));
                }
                return Err(text);
            }
            match decode(&given.bytes, &given.refused) {
                Ok(part) => Ok(Arc::new(part)),
                Err(e) => Err(e.message()),
            }
        },
    }
}

/// The first load that failed among the first `n` is the first of all.
pub proof fn lemma_first_failed_stays<T, E>(loads: Seq<Result<T, E>>, n: int)
    requires
        0 <= n <= loads.len(),
        first_failed(loads.take(n)) is Some,
    ensures
        first_failed(loads) == first_failed(loads.take(n)),
    decreases loads.len() - n,
{
    if n == loads.len() {
        assert(loads.take(n) =~= loads);
    } else {
        assert(loads.take(n + 1).drop_last() =~= loads.take(n));
        lemma_first_failed_stays(loads, n + 1);
    }
}

/// The cell of a listed part, from what is at hand and what storage gave for
/// it.
fn cell_for(
    at_hand: &DashMap<u128, PartCell>,
    part: &ListedPart,
    needed: bool,
    eager: bool,
    fetched: &Vec<Fetched>,
    k: usize,
) -> (res: Result<PartCell, String>)
    requires
        needed == needs(cells_contents(*at_hand), part@, eager),
        eager && needed ==> k < fetched@.len(),
    ensures
        ({
            let hand = cells_contents(*at_hand);
            if !needed {
                res matches Ok(cell) && cell_view(cell) == hand[part@.id]
            } else if !eager {
                res matches Ok(cell) && cell_view(cell) == (CellView {
                    hash: part@.hash,
                    part: None,
                })
            } else {
                match load_of(part@.hash, fetched_view(fetched@[k as int])) {
                    Ok(found) => res matches Ok(cell) && cell_view(cell) == (CellView {
                        hash: part@.hash,
                        part: Some(found),
                    }),
                    Err(text) => res matches Err(e) && e@ == text,
                }
            }
        }),
{
    if !needed {
        if let Some(cell) = cells_get(at_hand, part.part_id.0) {
            return Ok(cell);
        }
    }
    if eager {
        match load_part(part, &fetched[k]) {
            Ok(found) => Ok((part.content_hash, Some(found))),
            Err(text) => Err(text),
        }
    } else {
        Ok((part.content_hash, None))
    }
}

/// One listed part more.
proof fn lemma_resolve_step(
    at_hand: Cells,
    listed: Seq<ListedView>,
    eager: bool,
    loads: Seq<Result<PartView, Seq<char>>>,
    i: int,
)
    requires
        0 <= i < listed.len(),
    ensures
        ({
            let all = resolved(at_hand, listed, eager, loads);
            let cell = cell_at(at_hand, listed, eager, loads, i);
            let before = missing_of(at_hand, listed.take(i), eager);
            let now = missing_of(at_hand, listed.take(i + 1), eager);
            &&& cells_of(listed.take(i + 1), all.take(i + 1)) == cells_of(
                listed.take(i),
                all.take(i),
            ).insert(listed[i].id, cell)
            &&& superfiles_of(parts_in(all.take(i + 1))) == superfiles_of(parts_in(all.take(i)))
                + (cell.part->0).superfiles
            &&& now == if needs(at_hand, listed[i], eager) {
                before.push(listed[i])
            } else {
                before
            }
            &&& now.len() <= missing_of(at_hand, listed, eager).len()
        }),
{
    let all = resolved(at_hand, listed, eager, loads);
    assert(listed.take(i + 1).drop_last() =~= listed.take(i));
    assert(all.take(i + 1).drop_last() =~= all.take(i));
    assert(parts_in(all.take(i + 1)).drop_last() =~= parts_in(all.take(i)));
    lemma_missing_grows(at_hand, listed, eager, i + 1);
}

/// Builds a snapshot from a list, the parts at hand, and what storage gave for
/// the missing ones.
#[verifier::spinoff_prover]
#[verifier::rlimit(60)]
pub(crate) fn build_manifest(
    at_hand: &DashMap<u128, PartCell>,
    manifest_id: u64,
    list: ManifestList,
    eager: bool,
    fetched: &Vec<Fetched>,
) -> (res: Result<Manifest, OpenError>)
    requires
        eager ==> fetched@.len() == missing_of(
            cells_contents(*at_hand),
            list@.parts,
            eager,
        ).len(),
    ensures
        ({
            let hand = cells_contents(*at_hand);
            let missing = missing_of(hand, list@.parts, eager);
            let loads = loads_of(missing, fetched@);
            match first_failed(loads) {
                Some(k) if eager => res matches Err(e) && e@ == part_load_fault(
                    missing[k].id,
                    loads[k]->Err_0,
                ),
                _ => res matches Ok(manifest) && manifest@ == built(
                    hand,
                    manifest_id,
                    list@,
                    eager,
                    loads,
                ),
            }
        }),
{
    let ghost hand = cells_contents(*at_hand);
    let ghost listed = list@.parts;
    let ghost missing = missing_of(hand, listed, eager);
    let ghost loads = loads_of(missing, fetched@);
    let ghost all = resolved(hand, listed, eager, loads);
    let mut cells = new_cells();
    let mut superfiles: Vec<Arc<SuperfileEntry>> = Vec::new();
    let mut k: usize = 0;
    let mut i: usize = 0;
    proof {
        assert(cells_contents(cells) =~= Map::empty());
        assert(entries_view(superfiles@) =~= Seq::empty());
        assert(listed.take(0) =~= Seq::empty());
        assert(parts_in(all.take(0)) =~= Seq::empty());
        assert(loads.take(0) =~= Seq::empty());
    }
    while i < list.parts.len()
        invariant
            i <= list.parts@.len(),
            hand == cells_contents(*at_hand),
            listed == list@.parts,
            missing == missing_of(hand, listed, eager),
            loads == loads_of(missing, fetched@),
            all == resolved(hand, listed, eager, loads),
            eager ==> fetched@.len() == missing.len(),
            k == if eager {
                missing_of(hand, listed.take(i as int), eager).len()
            } else {
                0
            },
            eager ==> k <= missing.len() && first_failed(loads.take(k as int)) is None,
            cells_contents(cells) == cells_of(listed.take(i as int), all.take(i as int)),
            entries_view(superfiles@) == if eager {
                superfiles_of(parts_in(all.take(i as int)))
            } else {
                Seq::empty()
            },
        decreases list.parts.len() - i,
    {
        let part = &list.parts[i];
        let ghost at = i as int;
        let needed = is_needed(at_hand, part, eager);
        assert(part@ == listed[at]);
        proof {
            lemma_resolve_step(hand, listed, eager, loads, at);
            if needed {
                lemma_missing_at(hand, listed, eager, at);
            }
            if needed && eager {
                assert(loads[k as int] == load_of(part@.hash, fetched_view(fetched@[k as int])));
                assert(loads.take(k + 1).drop_last() =~= loads.take(k as int));
                assert(loads.take(k + 1).last() == loads[k as int]);
            }
        }
        let cell = match cell_for(at_hand, part, needed, eager, fetched, k) {
            Ok(cell) => cell,
            Err(source) => {
                proof {
                    lemma_first_failed_stays(loads, k + 1);
                }
                return Err(
                    OpenError::ManifestPartLoad { part_id: uuid_text(part.part_id.0), source },
                );
            },
        };
        assert(cell_view(cell) == cell_at(hand, listed, eager, loads, at));
        if eager && needed {
            assert(k < fetched.len());
            k = k + 1;
        }
        if eager {
            if let Some(found) = &cell.1 {
                append_shared(&mut superfiles, &found.superfiles);
            }
        }
        cells_insert(&mut cells, part.part_id.0, cell);
        i = i + 1;
    }
    proof {
        assert(listed.take(listed.len() as int) =~= listed);
        assert(all.take(listed.len() as int) =~= all);
        if eager {
            assert(loads.take(k as int) =~= loads);
        }
    }
    Ok(Manifest { manifest_id, superfiles, list: Some(list), parts: cells })
}

// ---- What a snapshot comes to -----------------------------------------------

/// The superfiles of parts are those of each part, in the order of the parts.
pub proof fn lemma_superfiles_of_parts(parts: Seq<PartView>)
    ensures
        superfiles_of(parts) == parts.map_values(|p: PartView| p.superfiles).flatten(),
    decreases parts.len(),
{
    let lists = parts.map_values(|p: PartView| p.superfiles);
    lists.lemma_flatten_and_flatten_alt_are_equivalent();
    if parts.len() > 0 {
        let rest = parts.drop_last();
        let before = rest.map_values(|p: PartView| p.superfiles);
        lemma_superfiles_of_parts(rest);
        before.lemma_flatten_and_flatten_alt_are_equivalent();
        assert(lists.drop_last() =~= before);
    }
}

/// The rows of a snapshot are the rows of its superfiles, added up.
pub proof fn lemma_rows_add_up(manifest: Manifest, total: u64)
    requires
        call_ensures(Manifest::n_docs_total, (&manifest,), total),
    ensures
        total as int == manifest.superfiles@.fold_left(
            0int,
            |n: int, e: Arc<SuperfileEntry>| n + e.n_docs as int,
        ),
{
    lemma_docs_total_is_sum(manifest.superfiles@, |n: int, e: Arc<SuperfileEntry>|
        n + e.n_docs as int);
}

proof fn lemma_docs_total_is_sum(
    superfiles: Seq<Arc<SuperfileEntry>>,
    plus: spec_fn(int, Arc<SuperfileEntry>) -> int,
)
    requires
        forall|n: int, e: Arc<SuperfileEntry>| #[trigger] plus(n, e) == n + e.n_docs as int,
    ensures
        docs_total(entries_view(superfiles)) as int == superfiles.fold_left(0int, plus),
    decreases superfiles.len(),
{
    if superfiles.len() > 0 {
        lemma_docs_total_is_sum(superfiles.drop_last(), plus);
        assert(entries_view(superfiles).drop_last() =~= entries_view(superfiles.drop_last()));
        assert(entries_view(superfiles).last() == superfiles.last()@);
    }
}

/// An appended snapshot has the next number and lists the superfiles that
/// there were, and behind them the new ones.
pub proof fn lemma_append_keeps_and_adds(
    manifest: Manifest,
    entries: Vec<Arc<SuperfileEntry>>,
    next: Manifest,
    i: int,
)
    requires
        call_ensures(Manifest::with_appended, (&manifest, &entries), next),
        manifest.manifest_id < u64::MAX,
    ensures
        next.manifest_id as int == manifest.manifest_id as int + 1,
        next.superfiles@.len() == manifest.superfiles@.len() + entries@.len(),
        0 <= i < manifest.superfiles@.len() ==> next.superfiles@[i]@ == manifest.superfiles@[i]@,
        0 <= i < entries@.len() ==> next.superfiles@[manifest.superfiles@.len() + i]@
            == entries@[i]@,
{
    let n = manifest.superfiles@.len();
    assert(next@.superfiles == manifest@.superfiles + entries_view(entries@));
    assert(next@.superfiles.len() == next.superfiles@.len());
    if 0 <= i < n {
        assert(next@.superfiles[i] == next.superfiles@[i]@);
        assert(manifest@.superfiles[i] == manifest.superfiles@[i]@);
    }
    if 0 <= i < entries@.len() {
        assert(next@.superfiles[n + i] == next.superfiles@[n + i]@);
        assert(entries_view(entries@)[i] == entries@[i]@);
    }
}

/// Of the listed parts, those are fetched, in their order, that are not at hand
/// with the listed digest, and those that are to be loaded and are not yet.
pub proof fn lemma_missing_are_those_not_at_hand(
    at_hand: Cells,
    listed: Seq<ListedView>,
    eager: bool,
)
    ensures
        missing_of(at_hand, listed, eager) == listed.filter(
            |l: ListedView|
                !(at_hand.contains_key(l.id) && at_hand[l.id].hash == l.hash && (eager
                    ==> at_hand[l.id].part is Some)),
        ),
    decreases listed.len(),
{
    reveal(Seq::filter);
    if listed.len() > 0 {
        lemma_missing_are_those_not_at_hand(at_hand, listed.drop_last(), eager);
    }
}

/// A part is loaded exactly if its bytes came, have the listed digest, and
/// decode; it is then what they decode to. What storage said, or that the
/// digest is another, or why they do not decode, is the error.
pub proof fn lemma_only_the_listed_bytes_load(
    listed: ListedPart,
    fetched: Fetched,
    res: Result<Arc<ManifestPart>, String>,
)
    requires
        call_ensures(load_part, (&listed, &fetched), res),
    ensures
        res is Ok <==> fetched is Ok && blake3_digest(fetched->Ok_0.bytes@)
            == listed.content_hash@ && part_of(
            fetched->Ok_0.bytes@,
            refusals(fetched->Ok_0.refused@),
        ) is Ok,
        res matches Ok(part) ==> part_of(
            fetched->Ok_0.bytes@,
            refusals(fetched->Ok_0.refused@),
        ) == Ok::<PartView, PartFault>(part@),
        fetched matches Err(text) ==> res is Err && res->Err_0@ == text@,
{
}

/// The first load that failed is the one before which none did; there is none
/// exactly if all succeeded.
pub proof fn lemma_first_failed_is_first<T, E>(loads: Seq<Result<T, E>>)
    ensures
        match first_failed(loads) {
            Some(k) => 0 <= k < loads.len() && loads[k] is Err && forall|j: int|
                0 <= j < k ==> (#[trigger] loads[j]) is Ok,
            None => forall|j: int| 0 <= j < loads.len() ==> (#[trigger] loads[j]) is Ok,
        },
    decreases loads.len(),
{
    if loads.len() > 0 {
        let rest = loads.drop_last();
        lemma_first_failed_is_first(rest);
        assert(forall|j: int| 0 <= j < rest.len() ==> #[trigger] rest[j] == loads[j]);
        if let Some(k) = first_failed(rest) {
            assert(rest[k] == loads[k]);
        }
        assert forall|j: int| first_failed(loads) is None && 0 <= j < loads.len() implies (
        #[trigger] loads[j]) is Ok by {
            if j < rest.len() {
                assert(rest[j] == loads[j]);
            }
        }
        if let Some(k) = first_failed(loads) {
            assert forall|j: int| 0 <= j < k implies (#[trigger] loads[j]) is Ok by {
                assert(rest[j] == loads[j]);
            }
        }
    }
}

/// A list all of whose parts are loaded gives a snapshot with the superfiles of
/// the first part, then of the second, and so on: of the parts that were at
/// hand with the listed digest as they were, and of the others as they were
/// fetched.
pub proof fn lemma_loaded_superfiles(
    at_hand: Cells,
    manifest_id: u64,
    list: ListView,
    loads: Seq<Result<PartView, Seq<char>>>,
)
    ensures
        ({
            let now = built(at_hand, manifest_id, list, true, loads);
            let cells = resolved(at_hand, list.parts, true, loads);
            &&& now.manifest_id == manifest_id
            &&& now.list == Some(list)
            &&& cells.len() == list.parts.len()
            &&& now.superfiles == cells.map_values(|c: CellView| c.part->0.superfiles).flatten()
            &&& forall|i: int|
                0 <= i < list.parts.len() ==> {
                    let l = list.parts[i];
                    let known = at_hand.contains_key(l.id) && at_hand[l.id].hash == l.hash
                        && at_hand[l.id].part is Some;
                    &&& (#[trigger] cells[i]).hash == l.hash
                    &&& known ==> cells[i].part == at_hand[l.id].part
                }
        }),
{
    let cells = resolved(at_hand, list.parts, true, loads);
    lemma_superfiles_of_parts(parts_in(cells));
    assert(parts_in(cells).map_values(|p: PartView| p.superfiles) =~= cells.map_values(
        |c: CellView| c.part->0.superfiles,
    ));
}

/// Snapshots that look the same have the same number and superfiles, and list the
/// same parts.
pub proof fn lemma_snapshots_are_their_fields(a: Manifest, b: Manifest, i: int)
    requires
        a@ == b@,
    ensures
        a.manifest_id == b.manifest_id,
        a.superfiles@.len() == b.superfiles@.len(),
        0 <= i < a.superfiles@.len() ==> a.superfiles@[i]@ == b.superfiles@[i]@,
        a.list is Some == b.list is Some,
        a.list is Some ==> a.list->0.parts@.len() == b.list->0.parts@.len()
            && a.list->0.options_hash@ == b.list->0.options_hash@,
        a.list is Some && 0 <= i < a.list->0.parts@.len() ==> a.list->0.parts@[i].part_id.0
            == b.list->0.parts@[i].part_id.0 && a.list->0.parts@[i].content_hash@
            == b.list->0.parts@[i].content_hash@ && a.list->0.parts@[i].uri@
            == b.list->0.parts@[i].uri@,
{
    assert(entries_view(a.superfiles@).len() == entries_view(b.superfiles@).len());
    if 0 <= i < a.superfiles@.len() {
        assert(entries_view(a.superfiles@)[i] == a.superfiles@[i]@);
        assert(entries_view(b.superfiles@)[i] == b.superfiles@[i]@);
    }
    if a.list is Some {
        let (x, y) = (listed_view(a.list->0.parts@), listed_view(b.list->0.parts@));
        assert(x == y);
        assert(x.len() == y.len());
        if 0 <= i < a.list->0.parts@.len() {
            assert(x[i] == a.list->0.parts@[i]@);
            assert(y[i] == b.list->0.parts@[i]@);
        }
    }
}

/// A superfile is pinned exactly if the snapshot lists it.
pub proof fn lemma_listed_superfiles_are_pinned(
    manifest: Manifest,
    uris: HashSet<u128>,
    uri: u128,
)
    requires
        call_ensures(Manifest::pinned_uris, (&manifest,), uris),
    ensures
        uris@.contains(uri) <==> exists|i: int|
            0 <= i < manifest.superfiles@.len() && (#[trigger] manifest.superfiles@[i]).uri.0
                == uri,
{
    let views = manifest@.superfiles;
    assert(views.len() == manifest.superfiles@.len());
    if uris@.contains(uri) {
        let i = choose|i: int| 0 <= i < views.len() && (#[trigger] views[i]).uri == uri;
        assert(manifest.superfiles@[i].uri.0 == uri);
    }
    if exists|i: int|
        0 <= i < manifest.superfiles@.len() && (#[trigger] manifest.superfiles@[i]).uri.0 == uri {
        let i = choose|i: int|
            0 <= i < manifest.superfiles@.len() && (#[trigger] manifest.superfiles@[i]).uri.0
                == uri;
        assert(views[i].uri == uri);
    }
}

} // verus!
