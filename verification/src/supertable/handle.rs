//! The handle of a table: how it is created, opened and refreshed, and the
//! readers that it hands out.
//!
//! What storage has to be asked is asked outside. Each stage of an open or a
//! refresh says what it needs next, and takes the reply.

use std::sync::Arc;
use vstd::prelude::*;
use vstd::string::StringExecFns;
use crate::storage::{StorageError, StorageFault};
use crate::supertable::error::{CommitError, OpenError, OpenFault};
use crate::supertable::manifest::commit::{PointerFile, POINTER_PATH};
use crate::supertable::manifest::part::{same_hash, ContentHash, EntryView};
use crate::supertable::manifest::snapshot::{
    build_manifest, built, cells_contents, cells_len, docs_total, fetched_view, first_failed,
    is_content_addressed, lemma_first_failed_is_first, lemma_listed_parts_have_their_hash,
    lemma_loaded_superfiles, lemma_missing_are_those_not_at_hand, lemma_parts_are_inherited,
    lemma_superfiles_are_those_listed, listed_view, lists_stored_parts, load_of, loads_of,
    missing_of, missing_parts, new_cells, part_load_fault, resolved, CellView, Cells, Fetched,
    ListView, ListedPart, ListedView, Manifest, ManifestList, ManifestView,
};
use crate::supertable::tombstones::cache::{
    SidecarCache, SidecarCacheView, DEFAULT_NEGATIVE_TTL, DEFAULT_REFRESH_TTL,
};
use crate::text::{decimal, push_decimal, quoted, quoted_chars};

verus! {

/// The options of a table that its handle goes by.
#[derive(Debug)]
pub struct TableOptions {
    /// The column that holds the row ids.
    pub id_column: String,
    /// Is there storage behind the table?
    pub storage: bool,
    /// Up to how many manifest parts are loaded at once when the table is
    /// opened.
    pub eager_load_threshold_parts: usize,
    /// How many bytes of memory the table may take.
    pub memory_budget_bytes: Option<u64>,
}

/// A table.
pub struct Supertable {
    options: TableOptions,
    manifest: Arc<Manifest>,
    handle_id: i128,
}

/// A reader of one snapshot. What is committed later does not show in it.
pub struct SupertableReader {
    manifest: Arc<Manifest>,
}

/// What to do to create a table.
pub enum CreateStep {
    /// A new table.
    Fresh(Supertable),
    /// There is a table already: open it.
    Open,
}

/// The counters of a superfile cache.
#[derive(Debug, Clone, Copy, PartialEq, Eq, Structural)]
pub struct CacheCounters {
    pub mmap_resident_bytes: u64,
    pub n_cold_fetches: u64,
    pub n_evictions: u64,
    pub n_madvise_calls: u64,
    pub n_entries: u64,
}

/// The load of a table.
#[derive(Debug, Clone, Copy, PartialEq, Eq, Structural)]
pub struct SupertableStats {
    pub manifest_id: u64,
    pub n_superfiles: usize,
    pub n_manifest_parts: Option<usize>,
    pub n_manifest_parts_loaded: usize,
    pub process_rss_bytes: Option<u64>,
    pub mmap_resident_bytes: Option<u64>,
    pub memory_budget_bytes: Option<u64>,
    pub n_cold_fetches: Option<u64>,
    pub n_cache_evictions: Option<u64>,
    pub n_cache_madvise_calls: Option<u64>,
    pub n_cache_entries: Option<u64>,
}

/// The message of an open without storage.
pub const OPEN_NEEDS_STORAGE: &'static str = "Supertable::open requires options.storage; attach via .with_storage(...) before calling open";

/// The message of a refresh without storage.
pub const REFRESH_NEEDS_STORAGE: &'static str = "Supertable::refresh requires options.storage";

/// A manifest list to fetch.
pub struct ListRequest {
    pub manifest_id: u64,
    pub uri: String,
}

/// Manifest parts to load.
pub struct PartsRequest {
    pub manifest_id: u64,
    pub list: ManifestList,
    /// The listed parts that have to be fetched.
    pub missing: Vec<ListedPart>,
    /// Are all parts to be loaded now?
    pub eager: bool,
}

/// The reply to a request for a manifest list: the list, or that it does not
/// parse, or that storage failed.
pub type ListReply = Result<Result<ManifestList, String>, StorageError>;

/// The cache of deleted rows: only storage can tell of any.
pub fn build_tombstone_cache(options: &TableOptions) -> (cache: Option<SidecarCache>)
    ensures
        cache is Some <==> options.storage,
        cache matches Some(cache) ==> cache@ == (SidecarCacheView {
            entries: Map::empty(),
            refresh_ttl: DEFAULT_REFRESH_TTL,
            negative_ttl: DEFAULT_NEGATIVE_TTL,
        }),
{
    if options.storage {
        Some(SidecarCache::new(DEFAULT_REFRESH_TTL))
    } else {
        None
    }
}

/// Is the digest that of no options? Such a list fits every table.
pub open spec fn is_zero(hash: Seq<u8>) -> bool {
    forall|i: int| 0 <= i < hash.len() ==> #[trigger] hash[i] == 0
}

/// Do the options fit the list?
fn options_fit(expected: &ContentHash, stored: &ContentHash) -> (res: bool)
    ensures
        res == (is_zero(stored@) || expected@ == stored@),
{
    let mut zero = true;
    let mut i: usize = 0;
    while i < 32
        invariant
            i <= 32,
            stored@.len() == 32,
            zero == forall|k: int| 0 <= k < i ==> #[trigger] stored@[k] == 0,
        decreases 32 - i,
    {
        let s = stored.0[i];
        assert(s == stored@[i as int]);
        if s != 0 {
            zero = false;
        }
        i = i + 1;
    }
    zero || same_hash(expected, stored)
}

/// The reply to a request for a manifest list.
fn take_list(reply: ListReply) -> (res: Result<ManifestList, OpenError>)
    ensures
        res == list_reply(reply),
{
    match reply {
        Err(e) => Err(OpenError::Storage(e)),
        Ok(Err(text)) => Err(OpenError::ManifestListParse(text)),
        Ok(Ok(list)) => Ok(list),
    }
}

/// What the reply to a request for a manifest list means.
pub open spec fn list_reply(reply: ListReply) -> Result<ManifestList, OpenError> {
    match reply {
        Err(e) => Err(OpenError::Storage(e)),
        Ok(Err(text)) => Err(OpenError::ManifestListParse(text)),
        Ok(Ok(list)) => Ok(list),
    }
}

impl Supertable {
    pub closed spec fn opts(&self) -> TableOptions {
        self.options
    }

    pub closed spec fn current(&self) -> ManifestView {
        self.manifest@
    }

    pub closed spec fn handle(&self) -> i128 {
        self.handle_id
    }

    /// Creates a table, unless there is one: `probe` is the pointer file of
    /// the storage behind the table, if there is storage.
    pub fn create(
        options: TableOptions,
        handle_id: i128,
        probe: Option<Result<Option<PointerFile>, String>>,
    ) -> (res: Result<CreateStep, OpenError>)
        requires
            options.storage <==> probe is Some,
        ensures
            match probe {
                Some(Err(text)) => res matches Err(e) && e@ == OpenFault::Storage(
                    StorageFault::Permanent { uri: POINTER_PATH@, source: text@ },
                ),
                Some(Ok(Some(_))) => res == Ok::<CreateStep, OpenError>(CreateStep::Open),
                _ => res matches Ok(CreateStep::Fresh(table)) && table.opts() == options
                    && table.handle() == handle_id && table.current() == (ManifestView {
                    manifest_id: 0,
                    superfiles: Seq::empty(),
                    list: None,
                    parts: Map::empty(),
                }),
            },
    {
        match probe {
            Some(Err(text)) => {
                return Err(
                    OpenError::Storage(
                        StorageError::Permanent { uri: POINTER_PATH.to_owned(), source: text },
                    ),
                );
            },
            Some(Ok(Some(_))) => {
                return Ok(CreateStep::Open);
            },
            _ => {},
        }
        let manifest = Arc::new(Manifest::empty());
        Ok(CreateStep::Fresh(Supertable { options, manifest, handle_id }))
    }

    /// Opens a table, from its pointer file: the manifest list to fetch.
    pub fn open(
        options: &TableOptions,
        pointer: Result<Option<PointerFile>, CommitError>,
    ) -> (res: Result<ListRequest, OpenError>)
        ensures
            !options.storage ==> (res matches Err(e) && e@ == OpenFault::Build(
                OPEN_NEEDS_STORAGE@,
            )),
            options.storage ==> match pointer {
                Err(e) => res == Err::<ListRequest, OpenError>(OpenError::Pointer(e)),
                Ok(None) => res matches Err(e) && e@ == OpenFault::PointerUnreadable(
                    StorageFault::NotFound { uri: POINTER_PATH@ },
                ),
                Ok(Some(file)) => res == Ok::<ListRequest, OpenError>(
                    ListRequest { manifest_id: file.manifest_id, uri: file.manifest_list_uri },
                ),
            },
    {
        if !options.storage {
            return Err(OpenError::Build(OPEN_NEEDS_STORAGE.to_owned()));
        }
        match pointer {
            Err(e) => Err(OpenError::Pointer(e)),
            Ok(None) => Err(
                OpenError::PointerUnreadable(StorageError::NotFound { uri: POINTER_PATH.to_owned() }),
            ),
            Ok(Some(file)) => Ok(
                ListRequest { manifest_id: file.manifest_id, uri: file.manifest_list_uri },
            ),
        }
    }

    /// Opens a table, from its manifest list: the parts to load. `expected` is
    /// the digest of the options.
    pub fn open_list(
        options: &TableOptions,
        request: ListRequest,
        reply: ListReply,
        expected: ContentHash,
    ) -> (res: Result<PartsRequest, OpenError>)
        ensures
            match list_reply(reply) {
                Err(e) => res == Err::<PartsRequest, OpenError>(e),
                Ok(list) => if is_zero(list.options_hash@) || expected@ == list.options_hash@ {
                    res matches Ok(parts) && parts.manifest_id == request.manifest_id && parts.list
                        == list && listed_view(parts.missing@) == list@.parts && (parts.eager
                        <==> list.parts@.len() <= options.eager_load_threshold_parts)
                } else {
                    res matches Err(e) && e@ == (OpenFault::OptionsHashMismatch {
                        expected: expected@,
                        actual: list.options_hash@,
                    })
                },
            },
    {
        let list = take_list(reply)?;
        if !options_fit(&expected, &list.options_hash) {
            return Err(
                OpenError::OptionsHashMismatch {
                    expected: expected.0,
                    actual: list.options_hash.0,
                },
            );
        }
        let eager = list.parts.len() <= options.eager_load_threshold_parts;
        let none = new_cells();
        let missing = missing_parts(&none, &list.parts, eager);
        proof {
            lemma_all_missing(cells_contents(none), list@.parts, eager);
        }
        Ok(PartsRequest { manifest_id: request.manifest_id, list, missing, eager })
    }

    /// Opens a table, from the bytes of its manifest parts, which were fetched
    /// in the order of the request if all are to be loaded.
    pub fn open_parts(
        options: TableOptions,
        handle_id: i128,
        request: PartsRequest,
        fetched: Vec<Fetched>,
    ) -> (res: Result<Supertable, OpenError>)
        requires
            request.eager ==> fetched@.len() == request.list.parts@.len(),
        ensures
            ({
                let listed = request.list@.parts;
                let loads = loads_of(listed, fetched@);
                match first_failed(loads) {
                    Some(k) if request.eager => res matches Err(e) && e@ == part_load_fault(
                        listed[k].id,
                        loads[k]->Err_0,
                    ),
                    _ => res matches Ok(table) && table.opts() == options && table.handle()
                        == handle_id && table.current() == built(
                        Map::empty(),
                        request.manifest_id,
                        request.list@,
                        request.eager,
                        loads,
                    ) && is_content_addressed(table.current().parts) && (request.eager
                        ==> lists_stored_parts(table.current().superfiles, listed)),
                }
            }),
    {
        let none = new_cells();
        proof {
            assert(cells_contents(none) =~= Map::empty());
            lemma_all_missing(cells_contents(none), request.list@.parts, request.eager);
        }
        let ghost list = request.list@;
        let manifest = build_manifest(
            &none,
            request.manifest_id,
            request.list,
            request.eager,
            &fetched,
        )?;
        proof {
            lemma_listed_parts_have_their_hash(Map::empty(), list.parts, request.eager, fetched@);
            if request.eager {
                lemma_superfiles_are_those_listed(
                    Map::empty(),
                    request.manifest_id,
                    list,
                    fetched@,
                );
            }
        }
        Ok(Supertable { options, manifest: Arc::new(manifest), handle_id })
    }

    /// Refreshes the table, from its pointer file: the manifest list to fetch,
    /// if it is a newer one.
    pub fn refresh(&self, pointer: Result<Option<PointerFile>, CommitError>) -> (res: Result<
        Option<ListRequest>,
        OpenError,
    >)
        ensures
            !self.opts().storage ==> (res matches Err(e) && e@ == OpenFault::Build(
                REFRESH_NEEDS_STORAGE@,
            )),
            self.opts().storage ==> match pointer {
                Err(e) => res == Err::<Option<ListRequest>, OpenError>(OpenError::Pointer(e)),
                Ok(file) => res matches Ok(request) && (request is Some <==> is_newer(
                    self.current().manifest_id,
                    file,
                )) && (request matches Some(request) ==> request == (ListRequest {
                    manifest_id: file->0.manifest_id,
                    uri: file->0.manifest_list_uri,
                })),
            },
            res matches Ok(request) ==> (request is Some <==> pointer->Ok_0 is Some
                && pointer->Ok_0->0.manifest_id > self.current().manifest_id),
    {
        if !self.options.storage {
            return Err(OpenError::Build(REFRESH_NEEDS_STORAGE.to_owned()));
        }
        match pointer {
            Err(e) => Err(OpenError::Pointer(e)),
            Ok(None) => Ok(None),
            Ok(Some(file)) => {
                if file.manifest_id <= self.manifest.manifest_id {
                    return Ok(None);
                }
                Ok(
                    Some(
                        ListRequest { manifest_id: file.manifest_id, uri: file.manifest_list_uri },
                    ),
                )
            },
        }
    }

    /// Refreshes the table, from its manifest list: the parts to fetch, which
    /// are those that the current snapshot does not hold with the same bytes.
    pub fn refresh_list(&self, request: ListRequest, reply: ListReply) -> (res: Result<
        PartsRequest,
        OpenError,
    >)
        ensures
            match list_reply(reply) {
                Err(e) => res == Err::<PartsRequest, OpenError>(e),
                Ok(list) => res matches Ok(parts) && parts.manifest_id == request.manifest_id
                    && parts.list == list && (parts.eager <==> list.parts@.len()
                    <= self.opts().eager_load_threshold_parts) && listed_view(parts.missing@)
                    == missing_of(self.current().parts, list@.parts, parts.eager),
            },
    {
        let list = take_list(reply)?;
        let eager = list.parts.len() <= self.options.eager_load_threshold_parts;
        let missing = missing_parts(&self.manifest.parts, &list.parts, eager);
        Ok(PartsRequest { manifest_id: request.manifest_id, list, missing, eager })
    }

    /// Refreshes the table, from the bytes of the manifest parts that had to be
    /// fetched. If one could not be loaded, the table stays at its snapshot.
    pub fn refresh_parts(&mut self, request: PartsRequest, fetched: Vec<Fetched>) -> (res: Result<
        (),
        OpenError,
    >)
        requires
            request.eager ==> fetched@.len() == missing_of(
                old(self).current().parts,
                request.list@.parts,
                request.eager,
            ).len(),
        ensures
            final(self).opts() == old(self).opts(),
            final(self).handle() == old(self).handle(),
            ({
                let at_hand = old(self).current().parts;
                let missing = missing_of(at_hand, request.list@.parts, request.eager);
                let loads = loads_of(missing, fetched@);
                match first_failed(loads) {
                    Some(k) if request.eager => (res matches Err(e) && e@ == part_load_fault(
                        missing[k].id,
                        loads[k]->Err_0,
                    )) && final(self).current() == old(self).current(),
                    _ => res is Ok && final(self).current() == built(
                        at_hand,
                        request.manifest_id,
                        request.list@,
                        request.eager,
                        loads,
                    ),
                }
            }),
            res is Ok && is_content_addressed(old(self).current().parts) ==> is_content_addressed(
                final(self).current().parts,
            ) && (request.eager ==> lists_stored_parts(
                final(self).current().superfiles,
                request.list@.parts,
            )),
    {
        let ghost at_hand = self.current().parts;
        let ghost list = request.list@;
        let manifest = build_manifest(
            &self.manifest.parts,
            request.manifest_id,
            request.list,
            request.eager,
            &fetched,
        )?;
        proof {
            if is_content_addressed(at_hand) {
                lemma_listed_parts_have_their_hash(at_hand, list.parts, request.eager, fetched@);
                if request.eager {
                    lemma_superfiles_are_those_listed(
                        at_hand,
                        request.manifest_id,
                        list,
                        fetched@,
                    );
                }
            }
        }
        self.publish(manifest);
        Ok(())
    }

    /// Makes a snapshot the current one.
    pub fn publish(&mut self, manifest: Manifest)
        ensures
            final(self).current() == manifest@,
            final(self).opts() == old(self).opts(),
            final(self).handle() == old(self).handle(),
    {
        self.manifest = Arc::new(manifest);
    }

    /// A reader of the current snapshot.
    pub fn reader(&self) -> (reader: SupertableReader)
        ensures
            reader.pinned() == self.current(),
    {
        SupertableReader { manifest: Arc::clone(&self.manifest) }
    }

    /// The options of the table.
    pub fn options(&self) -> (options: &TableOptions)
        ensures
            *options == self.opts(),
    {
        &self.options
    }

    /// The id under which this handle takes leases.
    pub fn handle_id(&self) -> (id: i128)
        ensures
            id == self.handle(),
    {
        self.handle_id
    }

    /// The current snapshot's id.
    pub fn manifest_id(&self) -> (id: u64)
        ensures
            id == self.current().manifest_id,
    {
        self.manifest.manifest_id
    }

    /// The load of the table, from what the process and the superfile cache
    /// report.
    pub fn stats(&self, process_rss_bytes: Option<u64>, cache: Option<CacheCounters>) -> (stats:
        SupertableStats)
        ensures
            stats.manifest_id == self.current().manifest_id,
            stats.n_superfiles == self.current().superfiles.len(),
            match self.current().list {
                Some(list) => stats.n_manifest_parts == Some(list.parts.len() as usize),
                None => stats.n_manifest_parts is None,
            },
            stats.n_manifest_parts_loaded == self.current().parts.dom().len(),
            stats.process_rss_bytes == process_rss_bytes,
            stats.memory_budget_bytes == self.opts().memory_budget_bytes,
            match cache {
                Some(c) => stats.mmap_resident_bytes == Some(c.mmap_resident_bytes)
                    && stats.n_cold_fetches == Some(c.n_cold_fetches) && stats.n_cache_evictions
                    == Some(c.n_evictions) && stats.n_cache_madvise_calls == Some(
                    c.n_madvise_calls,
                ) && stats.n_cache_entries == Some(c.n_entries),
                None => stats.mmap_resident_bytes is None && stats.n_cold_fetches is None
                    && stats.n_cache_evictions is None && stats.n_cache_madvise_calls is None
                    && stats.n_cache_entries is None,
            },
    {
        let n_manifest_parts = match &self.manifest.list {
            Some(list) => Some(list.parts.len()),
            None => None,
        };
        SupertableStats {
            manifest_id: self.manifest.manifest_id,
            n_superfiles: self.manifest.superfiles.len(),
            n_manifest_parts,
            n_manifest_parts_loaded: cells_len(&self.manifest.parts),
            process_rss_bytes,
            mmap_resident_bytes: match cache {
                Some(c) => Some(c.mmap_resident_bytes),
                None => None,
            },
            memory_budget_bytes: self.options.memory_budget_bytes,
            n_cold_fetches: match cache {
                Some(c) => Some(c.n_cold_fetches),
                None => None,
            },
            n_cache_evictions: match cache {
                Some(c) => Some(c.n_evictions),
                None => None,
            },
            n_cache_madvise_calls: match cache {
                Some(c) => Some(c.n_madvise_calls),
                None => None,
            },
            n_cache_entries: match cache {
                Some(c) => Some(c.n_entries),
                None => None,
            },
        }
    }

    /// A description of the table.
    pub fn debug_text(&self) -> (text: String)
        ensures
            text@ == "Supertable { manifest_id: "@ + decimal(self.current().manifest_id as nat)
                + ", n_superfiles: "@ + decimal(self.current().superfiles.len())
                + ", id_column: "@ + quoted_chars(self.opts().id_column@) + " }"@,
    {
        let mut text = "Supertable { manifest_id: ".to_owned();
        push_decimal(&mut text, self.manifest.manifest_id);
        text.append(", n_superfiles: ");
        push_decimal(&mut text, self.manifest.superfiles.len() as u64);
        text.append(", id_column: ");
        let column = quoted(&self.options.id_column);
        text.append(&column);
        text.append(" }");
        text
    }
}

impl SupertableReader {
    pub closed spec fn pinned(&self) -> ManifestView {
        self.manifest@
    }

    /// The snapshot's id.
    pub fn manifest_id(&self) -> (id: u64)
        ensures
            id == self.pinned().manifest_id,
    {
        self.manifest.manifest_id
    }

    /// How many superfiles the reader sees.
    pub fn n_superfiles(&self) -> (n: usize)
        ensures
            n == self.pinned().superfiles.len(),
    {
        self.manifest.superfiles.len()
    }

    /// How many rows the superfiles have that the reader sees.
    pub fn n_docs_total(&self) -> (n: u64)
        requires
            docs_total(self.pinned().superfiles) <= u64::MAX,
        ensures
            n == docs_total(self.pinned().superfiles),
    {
        self.manifest.n_docs_total()
    }

    /// The snapshot.
    pub fn manifest(&self) -> (manifest: &Arc<Manifest>)
        ensures
            manifest@ == self.pinned(),
    {
        &self.manifest
    }

    /// A description of the reader.
    pub fn debug_text(&self) -> (text: String)
        ensures
            text@ == "SupertableReader { manifest_id: "@ + decimal(
                self.pinned().manifest_id as nat,
            ) + ", n_superfiles: "@ + decimal(self.pinned().superfiles.len()) + " }"@,
    {
        let mut text = "SupertableReader { manifest_id: ".to_owned();
        push_decimal(&mut text, self.manifest.manifest_id);
        text.append(", n_superfiles: ");
        push_decimal(&mut text, self.manifest.superfiles.len() as u64);
        text.append(" }");
        text
    }
}

/// Of a list without parts at hand, every part is missing.
proof fn lemma_all_missing(at_hand: Cells, listed: Seq<ListedView>, eager: bool)
    requires
        at_hand.dom() == Set::<u128>::empty(),
    ensures
        missing_of(at_hand, listed, eager) == listed,
    decreases listed.len(),
{
    if listed.len() > 0 {
        lemma_all_missing(at_hand, listed.drop_last(), eager);
        assert(!at_hand.dom().contains(listed.last().id));
    }
    assert(missing_of(at_hand, listed, eager) =~= listed);
}

/// Does the pointer file name a newer snapshot?
pub open spec fn is_newer(manifest_id: u64, pointer: Option<PointerFile>) -> bool {
    pointer matches Some(file) && file.manifest_id > manifest_id
}

/// A table with storage and a readable pointer file asks for a list exactly if
/// there is a pointer file and its number is greater than that of the current
/// snapshot, by however much; it asks for the list that the pointer names.
pub proof fn lemma_refresh_asks_for_what_is_newer(
    table: Supertable,
    pointer: Result<Option<PointerFile>, CommitError>,
    res: Result<Option<ListRequest>, OpenError>,
)
    requires
        call_ensures(Supertable::refresh, (&table, pointer), res),
    ensures
        res is Ok <==> table.opts().storage && pointer is Ok,
        table.opts().storage && pointer is Err ==> res->Err_0 == OpenError::Pointer(
            pointer->Err_0,
        ),
        res matches Ok(request) ==> (request is Some <==> pointer->Ok_0 is Some
            && pointer->Ok_0->0.manifest_id as int > table.current().manifest_id as int),
        res matches Ok(Some(request)) ==> request.manifest_id == pointer->Ok_0->0.manifest_id
            && request.uri@ == pointer->Ok_0->0.manifest_list_uri@,
{
}

/// Opening asks for the list that the pointer file names, and fails without
/// storage or a pointer file.
pub proof fn lemma_open_asks_for_the_published_list(
    options: TableOptions,
    pointer: Result<Option<PointerFile>, CommitError>,
    res: Result<ListRequest, OpenError>,
)
    requires
        call_ensures(Supertable::open, (&options, pointer), res),
    ensures
        res is Ok <==> options.storage && pointer is Ok && pointer->Ok_0 is Some,
        res matches Ok(request) ==> request.manifest_id == pointer->Ok_0->0.manifest_id
            && request.uri@ == pointer->Ok_0->0.manifest_list_uri@,
{
}

/// What a refresh comes to, from the replies of storage: whether there was
/// anything new, or nothing after an error; and the snapshot that is current
/// then.
pub open spec fn refreshed(
    current: ManifestView,
    threshold: usize,
    pointer: Result<Option<PointerFile>, CommitError>,
    reply: ListReply,
    fetched: Seq<Fetched>,
) -> (Option<bool>, ManifestView) {
    match (pointer, list_reply(reply)) {
        (Err(_), _) => (None, current),
        (Ok(file), _) if !is_newer(current.manifest_id, file) => (Some(false), current),
        (Ok(_), Err(_)) => (None, current),
        (Ok(file), Ok(list)) => {
            let eager = list.parts@.len() <= threshold;
            let loads = loads_of(missing_of(current.parts, list@.parts, eager), fetched);
            if eager && first_failed(loads) is Some {
                (None, current)
            } else {
                (
                    Some(true),
                    built(current.parts, file->0.manifest_id, list@, eager, loads),
                )
            }
        },
    }
}

/// A refresh finds something new exactly if the pointer names a newer snapshot
/// whose list and parts load. It is then current, with the pointer's number and
/// the list; otherwise nothing changes.
pub proof fn lemma_refresh_advances_or_keeps(
    current: ManifestView,
    threshold: usize,
    pointer: Result<Option<PointerFile>, CommitError>,
    reply: ListReply,
    fetched: Seq<Fetched>,
)
    ensures
        ({
            let (outcome, after) = refreshed(current, threshold, pointer, reply, fetched);
            let list = list_reply(reply)->Ok_0;
            let eager = list.parts@.len() <= threshold;
            let loads = loads_of(missing_of(current.parts, list@.parts, eager), fetched);
            &&& outcome == Some(true) <==> pointer is Ok && pointer->Ok_0 is Some
                && pointer->Ok_0->0.manifest_id > current.manifest_id && reply is Ok
                && reply->Ok_0 is Ok && (eager ==> first_failed(loads) is None)
            &&& outcome == Some(true) ==> after.manifest_id == pointer->Ok_0->0.manifest_id
                && after.manifest_id > current.manifest_id && after.list == Some(list@)
            &&& outcome != Some(true) ==> after == current
            &&& outcome == Some(false) <==> pointer is Ok && (pointer->Ok_0 is Some
                ==> pointer->Ok_0->0.manifest_id <= current.manifest_id)
        }),
{
}

/// A list opens exactly if storage gave one that parses, and it was written
/// with the same options or says nothing of options. All its parts are then to
/// be fetched, and are loaded at once if they are no more than the threshold.
pub proof fn lemma_open_takes_a_fitting_list(
    options: TableOptions,
    request: ListRequest,
    reply: ListReply,
    expected: ContentHash,
    res: Result<PartsRequest, OpenError>,
)
    requires
        call_ensures(Supertable::open_list, (&options, request, reply, expected), res),
    ensures
        reply matches Err(e) ==> res == Err::<PartsRequest, OpenError>(OpenError::Storage(e)),
        reply matches Ok(Err(text)) ==> res == Err::<PartsRequest, OpenError>(
            OpenError::ManifestListParse(text),
        ),
        reply matches Ok(Ok(list)) ==> {
            &&& res is Ok <==> (expected@ == list.options_hash@ || forall|i: int|
                0 <= i < 32 ==> #[trigger] list.options_hash@[i] == 0)
            &&& res is Err ==> res->Err_0 is OptionsHashMismatch
            &&& res matches Ok(parts) ==> parts.manifest_id == request.manifest_id && parts.list
                == list && (parts.eager <==> list.parts@.len()
                <= options.eager_load_threshold_parts) && parts.missing@.len() == list.parts@.len()
                && forall|i: int|
                0 <= i < list.parts@.len() ==> (#[trigger] parts.missing@[i])@
                    == list.parts@[i]@
        },
{
    if let Ok(Ok(list)) = reply {
        assert(list.options_hash@.len() == 32);
        if let Ok(parts) = res {
            assert(listed_view(parts.missing@).len() == parts.missing@.len());
            assert forall|i: int| 0 <= i < list.parts@.len() implies (
            #[trigger] parts.missing@[i])@ == list.parts@[i]@ by {
                assert(listed_view(parts.missing@)[i] == parts.missing@[i]@);
                assert(list@.parts[i] == list.parts@[i]@);
            }
        }
    }
}

/// A refresh fetches of a list that came exactly the parts that the current
/// snapshot does not hold with the listed digest, and those that are to be
/// loaded and are not.
pub proof fn lemma_refresh_fetches_what_changed(
    table: Supertable,
    request: ListRequest,
    reply: ListReply,
    res: Result<PartsRequest, OpenError>,
)
    requires
        call_ensures(Supertable::refresh_list, (&table, request, reply), res),
    ensures
        reply matches Err(e) ==> res == Err::<PartsRequest, OpenError>(OpenError::Storage(e)),
        reply matches Ok(Err(text)) ==> res == Err::<PartsRequest, OpenError>(
            OpenError::ManifestListParse(text),
        ),
        reply matches Ok(Ok(list)) ==> res is Ok && ({
            let parts = res->Ok_0;
            let held = table.current().parts;
            &&& parts.manifest_id == request.manifest_id
            &&& parts.list == list
            &&& parts.eager <==> list.parts@.len() <= table.opts().eager_load_threshold_parts
            &&& listed_view(parts.missing@) == listed_view(list.parts@).filter(
                |l: ListedView|
                    !(held.contains_key(l.id) && held[l.id].hash == l.hash && (parts.eager
                        ==> held[l.id].part is Some)),
            )
        }),
{
    if let Ok(Ok(list)) = reply {
        lemma_missing_are_those_not_at_hand(
            table.current().parts,
            listed_view(list.parts@),
            res->Ok_0.eager,
        );
    }
}

/// A table whose parts are loaded at once opens exactly if every part loads:
/// its bytes came, have the listed digest, and decode. It then shows the
/// superfiles of the parts in the order of the list. A table whose parts are
/// loaded later always opens, and holds the digests.
pub proof fn lemma_open_shows_the_listed_parts(
    options: TableOptions,
    handle_id: i128,
    request: PartsRequest,
    fetched: Vec<Fetched>,
    res: Result<Supertable, OpenError>,
)
    requires
        call_ensures(Supertable::open_parts, (options, handle_id, request, fetched), res),
        request.eager ==> fetched@.len() == request.list.parts@.len(),
    ensures
        ({
            let listed = request.list@.parts;
            let n = listed.len();
            let loads = Seq::new(n, |i: int| load_of(listed[i].hash, fetched_view(fetched@[i])));
            &&& res is Ok <==> (request.eager ==> forall|i: int|
                0 <= i < n ==> (#[trigger] loads[i]) is Ok)
            &&& res matches Ok(table) ==> table.current().manifest_id == request.manifest_id
                && table.current().list == Some(request.list@) && table.opts() == options
                && table.handle() == handle_id
            &&& res matches Ok(table) ==> (request.eager ==> table.current().superfiles == Seq::new(
                n,
                |i: int| loads[i]->Ok_0.superfiles,
            ).flatten())
            &&& res matches Ok(table) ==> (!request.eager ==> table.current().superfiles
                == Seq::<EntryView>::empty())
            &&& res matches Ok(table) ==> forall|i: int|
                0 <= i < n ==> table.current().parts.contains_key((#[trigger] listed[i]).id)
        }),
{
    let listed = request.list@.parts;
    let n = listed.len();
    let loads = loads_of(listed, fetched@);
    let none = Map::<u128, CellView>::empty();
    lemma_first_failed_is_first(loads);
    lemma_all_missing(none, listed, request.eager);
    assert(loads =~= Seq::new(n, |i: int| load_of(listed[i].hash, fetched_view(fetched@[i]))));
    if let Ok(table) = res {
        lemma_loaded_superfiles(none, request.manifest_id, request.list@, loads);
        let cells = resolved(none, listed, request.eager, loads);
        assert forall|i: int| 0 <= i < n implies table.current().parts.contains_key(
            (#[trigger] listed[i]).id,
        ) by {
            lemma_parts_are_inherited(none, listed, request.eager, loads, i);
        }
        if request.eager {
            assert forall|i: int| 0 <= i < n implies (#[trigger] cells[i]).part == Some(
                loads[i]->Ok_0,
            ) by {
                lemma_all_missing(none, listed.take(i), true);
            }
            assert(cells.map_values(|c: CellView| c.part->0.superfiles) =~= Seq::new(
                n,
                |i: int| loads[i]->Ok_0.superfiles,
            ));
        }
    }
}

/// A reader shows the snapshot that is current when it is made.
pub proof fn lemma_reader_is_pinned(table: Supertable, reader: SupertableReader)
    requires
        call_ensures(Supertable::reader, (&table,), reader),
    ensures
        reader.pinned().manifest_id == table.current().manifest_id,
        reader.pinned().superfiles == table.current().superfiles,
        reader.pinned().list == table.current().list,
        reader.pinned().parts == table.current().parts,
{
}

/// A table is created only where there is none: with storage, the pointer file
/// must have been looked for and not found. It then has no superfiles.
pub proof fn lemma_create_only_where_there_is_none(
    options: TableOptions,
    handle_id: i128,
    probe: Option<Result<Option<PointerFile>, String>>,
    res: Result<CreateStep, OpenError>,
)
    requires
        call_ensures(Supertable::create, (options, handle_id, probe), res),
        options.storage <==> probe is Some,
    ensures
        (res is Ok && res->Ok_0 is Fresh) <==> (!options.storage || (probe->0 is Ok
            && probe->0->Ok_0 is None)),
        (res is Ok && res->Ok_0 is Open) <==> options.storage && probe->0 is Ok && probe->0->Ok_0
            is Some,
        res is Ok && res->Ok_0 is Fresh ==> res->Ok_0->Fresh_0.current().superfiles.len() == 0
            && res->Ok_0->Fresh_0.current().manifest_id == 0 && res->Ok_0->Fresh_0.opts()
            == options,
{
}

/// A refresh that loads its parts at once succeeds exactly if every part that it
/// fetched loads. Then the table shows the list with its number, and the
/// superfiles of the listed parts in their order, a part that was held with
/// the listed digest as it was held. If a part does not load, the table stays
/// at its snapshot.
pub proof fn lemma_refresh_shows_the_listed_parts(
    table: &mut Supertable,
    request: PartsRequest,
    fetched: Vec<Fetched>,
    res: Result<(), OpenError>,
)
    requires
        call_ensures(Supertable::refresh_parts, (table, request, fetched), res),
    ensures
        ({
            let held = old(table).current().parts;
            let listed = request.list@.parts;
            let missing = listed.filter(
                |l: ListedView|
                    !(held.contains_key(l.id) && held[l.id].hash == l.hash && (request.eager
                        ==> held[l.id].part is Some)),
            );
            let loads = Seq::new(
                missing.len(),
                |i: int| load_of(missing[i].hash, fetched_view(fetched@[i])),
            );
            let now = final(table).current();
            &&& res is Ok <==> (request.eager ==> forall|i: int|
                0 <= i < loads.len() ==> (#[trigger] loads[i]) is Ok)
            &&& res is Err ==> now == old(table).current()
            &&& final(table).opts() == old(table).opts()
            &&& res is Ok ==> now.manifest_id == request.manifest_id && now.list == Some(
                request.list@,
            )
            &&& res is Ok && request.eager ==> exists|lists: Seq<Seq<EntryView>>| #[trigger]
                lists.flatten() == now.superfiles && lists.len() == listed.len() && forall|i: int|
                    #![trigger lists[i]]
                    0 <= i < listed.len() && held.contains_key(listed[i].id)
                        && held[listed[i].id].hash == listed[i].hash && held[listed[i].id].part
                        is Some ==> lists[i] == held[listed[i].id].part->0.superfiles
        }),
{
    let held = old(table).current().parts;
    let listed = request.list@.parts;
    let missing = missing_of(held, listed, request.eager);
    let loads = loads_of(missing, fetched@);
    lemma_missing_are_those_not_at_hand(held, listed, request.eager);
    lemma_first_failed_is_first(loads);
    assert(loads =~= Seq::new(
        missing.len(),
        |i: int| load_of(missing[i].hash, fetched_view(fetched@[i])),
    ));
    if res is Ok && request.eager {
        lemma_loaded_superfiles(held, request.manifest_id, request.list@, loads);
        let cells = resolved(held, listed, true, loads);
        let lists = cells.map_values(|c: CellView| c.part->0.superfiles);
        assert(lists.flatten() == final(table).current().superfiles);
        assert forall|i: int|
            #![trigger lists[i]]
            0 <= i < listed.len() && held.contains_key(listed[i].id) && held[listed[i].id].hash
                == listed[i].hash && held[listed[i].id].part is Some implies lists[i]
            == held[listed[i].id].part->0.superfiles by {
            assert(cells[i].part == held[listed[i].id].part);
        }
    }
}

/// A snapshot that is published is the current one, and the next reader shows it;
/// the table's options and its handle stay.
pub proof fn lemma_published_is_read(
    table: &mut Supertable,
    manifest: Manifest,
    after: Supertable,
    reader: SupertableReader,
    n: usize,
    id: u64,
)
    requires
        call_ensures(Supertable::publish, (table, manifest), ()),
        after == *final(table),
        call_ensures(Supertable::reader, (&after,), reader),
        call_ensures(SupertableReader::n_superfiles, (&reader,), n),
        call_ensures(Supertable::manifest_id, (&after,), id),
    ensures
        reader.pinned() == manifest@,
        n == manifest.superfiles@.len(),
        id == manifest.manifest_id,
        after.opts() == old(table).opts(),
        after.handle() == old(table).handle(),
{
    assert(manifest@.superfiles.len() == manifest.superfiles@.len());
}

/// What a table reports of itself is what its snapshot has, and what the process
/// and the cache reported.
pub proof fn lemma_reported_load(
    table: Supertable,
    process_rss_bytes: Option<u64>,
    cache: Option<CacheCounters>,
    stats: SupertableStats,
)
    requires
        call_ensures(Supertable::stats, (&table, process_rss_bytes, cache), stats),
    ensures
        stats.manifest_id == table.current().manifest_id,
        stats.n_superfiles == table.current().superfiles.len(),
        stats.n_manifest_parts is Some <==> table.current().list is Some,
        stats.n_manifest_parts_loaded == table.current().parts.dom().len(),
        stats.process_rss_bytes == process_rss_bytes,
        stats.memory_budget_bytes == table.opts().memory_budget_bytes,
        stats.n_cold_fetches is Some <==> cache is Some,
        cache matches Some(c) ==> stats.mmap_resident_bytes == Some(c.mmap_resident_bytes)
            && stats.n_cold_fetches == Some(c.n_cold_fetches) && stats.n_cache_evictions == Some(
            c.n_evictions,
        ) && stats.n_cache_madvise_calls == Some(c.n_madvise_calls) && stats.n_cache_entries
            == Some(c.n_entries),
{
}

} // verus!
