//! The deleted rows of each superfile, as they were when storage was last
//! asked.
//!
//! Times are nanoseconds on a clock that does not go back.

use std::sync::Arc;
use dashmap::DashMap;
use roaring::RoaringBitmap;
use vstd::prelude::*;
use vstd::string::StringExecFns;
use crate::ids::{uuid_chars, uuid_text};
use crate::supertable::tombstones::bitmap::{bitmap_contents, bitmap_is_empty, empty_bitmap};

verus! {

/// How long a superfile with deleted rows is taken as known.
pub const DEFAULT_REFRESH_TTL: u64 = 1_000_000_000;

/// How long a superfile without deleted rows is taken as known. Most have
/// none, and asking storage for each of them on each query would cost more
/// than a late sight of what another process deletes.
pub const DEFAULT_NEGATIVE_TTL: u64 = 60_000_000_000;

/// Why the deleted rows of a superfile are not known.
#[derive(Debug, Clone, PartialEq, Eq)]
pub enum SidecarCacheError {
    /// Storage failed. What was known before stays as it is.
    RefreshFailed { superfile_id: u128, message: String },
}

impl SidecarCacheError {
    pub open spec fn message_spec(&self) -> Seq<char> {
        match self {
            SidecarCacheError::RefreshFailed { superfile_id, message } =>
                "tombstone sidecar refresh failed for "@ + uuid_chars(*superfile_id) + ": "@
                    + message@,
        }
    }

    /// The message for this error.
    pub fn message(&self) -> (text: String)
        ensures
            text@ == self.message_spec(),
    {
        match self {
            SidecarCacheError::RefreshFailed { superfile_id, message } => {
                let mut text = "tombstone sidecar refresh failed for ".to_owned();
                let id = uuid_text(*superfile_id);
                text.append(&id);
                text.append(": ");
                text.append(message);
                text
            },
        }
    }
}

/// What storage knows of the deleted rows of a superfile. `seal` is the seal
/// record, encoded, if the superfile is sealed.
pub struct Sidecar {
    pub bitmap: RoaringBitmap,
    pub seal: Option<Vec<u8>>,
    pub etag: String,
}

/// The reply of storage: the sidecar, that there is none, or why neither is
/// known.
pub type SidecarReply = Result<Option<Sidecar>, String>;

/// An entry of the cache: the version of the sidecar, the deleted rows, the
/// seal record, and when storage was asked.
pub type CachedSidecar = (Option<String>, Arc<RoaringBitmap>, Option<Vec<u8>>, u64);

/// [`CachedSidecar`] over sets and sequences.
#[verifier::ext_equal]
pub struct SidecarView {
    pub etag: Option<Seq<char>>,
    pub deleted: Set<u32>,
    pub seal: Option<Seq<u8>>,
    pub last_checked: u64,
}

/// The bytes of an optional record.
pub open spec fn optional_bytes(bytes: Option<Vec<u8>>) -> Option<Seq<u8>> {
    match bytes {
        Some(bytes) => Some(bytes@),
        None => None,
    }
}

/// The entry over sets and sequences.
pub open spec fn sidecar_view(entry: CachedSidecar) -> SidecarView {
    let (etag, bitmap, seal, last_checked) = entry;
    SidecarView {
        etag: match etag {
            Some(etag) => Some(etag@),
            None => None,
        },
        deleted: bitmap_contents(*bitmap),
        seal: optional_bytes(seal),
        last_checked,
    }
}

/// What the reply of storage says: without a sidecar, no row is deleted.
pub open spec fn reply_view(reply: Option<Sidecar>, now: u64) -> SidecarView {
    match reply {
        Some(sidecar) => SidecarView {
            etag: Some(sidecar.etag@),
            deleted: bitmap_contents(sidecar.bitmap),
            seal: optional_bytes(sidecar.seal),
            last_checked: now,
        },
        None => SidecarView {
            etag: None,
            deleted: Set::empty(),
            seal: None,
            last_checked: now,
        },
    }
}

/// The entries by superfile.
pub uninterp spec fn sidecar_contents(entries: DashMap<u128, CachedSidecar>) -> Map<
    u128,
    SidecarView,
>;

/// A map without entries. Calls `DashMap::new`.
#[verifier::external_body]
fn new_sidecars() -> (entries: DashMap<u128, CachedSidecar>)
    ensures
        sidecar_contents(entries).dom() == Set::<u128>::empty(),
{
    DashMap::new()
}

/// Sets the entry of a superfile. Calls `DashMap::insert`.
#[verifier::external_body]
fn sidecar_insert(
    entries: &mut DashMap<u128, CachedSidecar>,
    superfile_id: u128,
    entry: CachedSidecar,
)
    ensures
        sidecar_contents(*final(entries)) == sidecar_contents(*old(entries)).insert(
            superfile_id,
            sidecar_view(entry),
        ),
{
    entries.insert(superfile_id, entry);
}

/// The entry of a superfile, if there is one. Calls `DashMap::get`.
#[verifier::external_body]
fn sidecar_get(entries: &DashMap<u128, CachedSidecar>, superfile_id: u128) -> (res: Option<
    CachedSidecar,
>)
    ensures
        res is Some <==> sidecar_contents(*entries).contains_key(superfile_id),
        res matches Some(entry) ==> sidecar_view(entry) == sidecar_contents(
            *entries,
        )[superfile_id],
{
    entries.get(&superfile_id).map(|entry| entry.value().clone())
}

/// Removes the entry of a superfile. Calls `DashMap::remove`.
#[verifier::external_body]
fn sidecar_remove(entries: &mut DashMap<u128, CachedSidecar>, superfile_id: u128)
    ensures
        sidecar_contents(*final(entries)) == sidecar_contents(*old(entries)).remove(superfile_id),
{
    entries.remove(&superfile_id);
}

/// How many entries there are. Calls `DashMap::len`.
#[verifier::external_body]
fn sidecar_len(entries: &DashMap<u128, CachedSidecar>) -> (len: usize)
    ensures
        len == sidecar_contents(*entries).dom().len(),
        len == 0 <==> sidecar_contents(*entries).dom() == Set::<u128>::empty(),
{
    entries.len()
}

/// The deleted rows of each superfile, as far as they are known.
pub struct SidecarCache {
    entries: DashMap<u128, CachedSidecar>,
    refresh_ttl: u64,
    negative_ttl: u64,
}

/// [`SidecarCache`] over maps.
#[verifier::ext_equal]
pub struct SidecarCacheView {
    pub entries: Map<u128, SidecarView>,
    pub refresh_ttl: u64,
    pub negative_ttl: u64,
}

impl SidecarCacheView {
    /// How long an entry is taken as known.
    pub open spec fn ttl(self, is_empty: bool) -> u64 {
        if is_empty {
            self.negative_ttl
        } else {
            self.refresh_ttl
        }
    }

    /// Has storage to be asked for the superfile?
    pub open spec fn is_stale(self, superfile_id: u128, now: u64) -> bool {
        self.entries.contains_key(superfile_id) ==> {
            let entry = self.entries[superfile_id];
            let age = if now > entry.last_checked {
                now - entry.last_checked
            } else {
                0
            };
            age >= self.ttl(entry.deleted == Set::<u32>::empty())
        }
    }

    /// The cache with what the replies of storage say. A reply that is an
    /// error leaves what was known.
    pub open spec fn absorbed(self, replies: Seq<(u128, SidecarReply)>, now: u64) -> Self
        decreases replies.len(),
    {
        if replies.len() == 0 {
            self
        } else {
            let rest = self.absorbed(replies.drop_last(), now);
            match replies.last() {
                (_, Err(_)) => rest,
                (superfile_id, Ok(reply)) => SidecarCacheView {
                    entries: rest.entries.insert(superfile_id, reply_view(reply, now)),
                    ..rest
                },
            }
        }
    }
}

/// The stale ones of `ids`, in their order.
pub open spec fn stale_ids(cache: SidecarCacheView, ids: Seq<u128>, now: u64) -> Seq<u128>
    decreases ids.len(),
{
    if ids.len() == 0 {
        Seq::empty()
    } else {
        let rest = stale_ids(cache, ids.drop_last(), now);
        if cache.is_stale(ids.last(), now) {
            rest.push(ids.last())
        } else {
            rest
        }
    }
}

/// Right after a reply, a superfile is known, unless nothing is ever taken as
/// known.
pub proof fn lemma_absorbed_is_fresh(
    cache: SidecarCacheView,
    replies: Seq<(u128, SidecarReply)>,
    now: u64,
    i: int,
)
    requires
        cache.refresh_ttl > 0,
        cache.negative_ttl > 0,
        0 <= i < replies.len(),
        replies[i].1 is Ok,
    ensures
        !cache.absorbed(replies, now).is_stale(replies[i].0, now),
    decreases replies.len(),
{
    lemma_absorb_keeps_ttls(cache, replies.drop_last(), now);
    if i < replies.len() - 1 {
        lemma_absorbed_is_fresh(cache, replies.drop_last(), now, i);
        assert(replies.drop_last()[i] == replies[i]);
    }
}

proof fn lemma_absorb_keeps_ttls(
    cache: SidecarCacheView,
    replies: Seq<(u128, SidecarReply)>,
    now: u64,
)
    ensures
        cache.absorbed(replies, now).refresh_ttl == cache.refresh_ttl,
        cache.absorbed(replies, now).negative_ttl == cache.negative_ttl,
    decreases replies.len(),
{
    if replies.len() > 0 {
        lemma_absorb_keeps_ttls(cache, replies.drop_last(), now);
    }
}

impl View for SidecarCache {
    type V = SidecarCacheView;

    closed spec fn view(&self) -> SidecarCacheView {
        SidecarCacheView {
            entries: sidecar_contents(self.entries),
            refresh_ttl: self.refresh_ttl,
            negative_ttl: self.negative_ttl,
        }
    }
}

/// After the replies of storage, a superfile is known by the last of them
/// about it that is no error: its deleted rows are exactly those of the
/// sidecar, with its version and its seal record; without a sidecar no row is
/// deleted.
pub proof fn lemma_last_reply_is_known(
    before: SidecarCacheView,
    replies: Seq<(u128, SidecarReply)>,
    now: u64,
    i: int,
)
    requires
        0 <= i < replies.len(),
        replies[i].1 is Ok,
        forall|j: int|
            i < j < replies.len() && (#[trigger] replies[j]).0 == replies[i].0
                ==> replies[j].1 is Err,
    ensures
        ({
            let after = before.absorbed(replies, now);
            let entry = after.entries[replies[i].0];
            &&& after.entries.contains_key(replies[i].0)
            &&& entry.last_checked == now
            &&& match replies[i].1->Ok_0 {
                Some(sidecar) => (forall|row: u32| #[trigger]
                    entry.deleted.contains(row) <==> bitmap_contents(sidecar.bitmap).contains(row))
                    && entry.etag == Some(sidecar.etag@) && (match sidecar.seal {
                    Some(seal) => entry.seal == Some(seal@),
                    None => entry.seal is None,
                }),
                None => (forall|row: u32| !#[trigger] entry.deleted.contains(row))
                    && entry.etag is None && entry.seal is None,
            }
        }),
    decreases replies.len(),
{
    if i < replies.len() - 1 {
        let rest = replies.drop_last();
        assert(rest[i] == replies[i]);
        assert forall|j: int| i < j < rest.len() && (#[trigger] rest[j]).0 == rest[i].0 implies
            rest[j].1 is Err by {
            assert(rest[j] == replies[j]);
        }
        lemma_last_reply_is_known(before, rest, now, i);
        assert(replies[replies.len() - 1] == replies.last());
    }
}

/// A superfile without a reply that is no error stays as it was, and so does
/// how long entries are taken as known.
pub proof fn lemma_unanswered_stay(
    before: SidecarCacheView,
    replies: Seq<(u128, SidecarReply)>,
    now: u64,
    superfile_id: u128,
)
    requires
        forall|j: int|
            0 <= j < replies.len() && (#[trigger] replies[j]).0 == superfile_id
                ==> replies[j].1 is Err,
    ensures
        before.absorbed(replies, now).entries.contains_key(superfile_id)
            <==> before.entries.contains_key(superfile_id),
        before.entries.contains_key(superfile_id) ==> before.absorbed(replies, now).entries[superfile_id]
            == before.entries[superfile_id],
        before.absorbed(replies, now).refresh_ttl == before.refresh_ttl,
        before.absorbed(replies, now).negative_ttl == before.negative_ttl,
    decreases replies.len(),
{
    lemma_absorb_keeps_ttls(before, replies, now);
    if replies.len() > 0 {
        let rest = replies.drop_last();
        assert(replies[replies.len() - 1] == replies.last());
        assert forall|j: int| 0 <= j < rest.len() && (#[trigger] rest[j]).0 == superfile_id implies
            rest[j].1 is Err by {
            assert(rest[j] == replies[j]);
        }
        lemma_unanswered_stay(before, rest, now, superfile_id);
    }
}

/// What a lookup gives: the deleted rows of the last reply, exactly, as long
/// as less time has passed since then than an entry is taken as known, which
/// depends on whether any row is deleted; and nothing after that.
pub proof fn lemma_lookup_gives_the_last_reply(
    cache: SidecarCache,
    before: SidecarCacheView,
    replies: Seq<(u128, SidecarReply)>,
    asked: u64,
    i: int,
    now: u64,
    known: Option<Arc<RoaringBitmap>>,
)
    requires
        cache@ == before.absorbed(replies, asked),
        0 <= i < replies.len(),
        replies[i].1 is Ok,
        forall|j: int|
            i < j < replies.len() && (#[trigger] replies[j]).0 == replies[i].0
                ==> replies[j].1 is Err,
        call_ensures(SidecarCache::bitmap_for, (&cache, replies[i].0, now), known),
        asked <= now,
    ensures
        match replies[i].1->Ok_0 {
            Some(sidecar) => {
                let rows = bitmap_contents(sidecar.bitmap);
                &&& (exists|row: u32| rows.contains(row)) ==> (known is Some <==> now - asked
                    < before.refresh_ttl)
                &&& (forall|row: u32| !rows.contains(row)) ==> (known is Some <==> now - asked
                    < before.negative_ttl)
                &&& known matches Some(found) ==> forall|row: u32| #[trigger]
                    bitmap_contents(*found).contains(row) <==> rows.contains(row)
            },
            None => {
                &&& known is Some <==> now - asked < before.negative_ttl
                &&& known matches Some(found) ==> forall|row: u32|
                    !#[trigger] bitmap_contents(*found).contains(row)
            },
        },
{
    lemma_last_reply_is_known(before, replies, asked, i);
    lemma_absorb_keeps_ttls(before, replies, asked);
    let entry = cache@.entries[replies[i].0];
    if let Some(sidecar) = replies[i].1->Ok_0 {
        assert(entry.deleted =~= bitmap_contents(sidecar.bitmap));
        if forall|row: u32| !bitmap_contents(sidecar.bitmap).contains(row) {
            assert(entry.deleted =~= Set::<u32>::empty());
        }
    } else {
        assert(entry.deleted =~= Set::<u32>::empty());
    }
}

/// Storage is asked for a superfile exactly if it has no entry, or its entry
/// is as old as it is taken as known: longer if no row is deleted.
pub proof fn lemma_stale_by_age(cache: SidecarCache, superfile_id: u128, now: u64, stale: bool)
    requires
        call_ensures(SidecarCache::needs_refresh, (&cache, superfile_id, now), stale),
    ensures
        !cache@.entries.contains_key(superfile_id) ==> stale,
        cache@.entries.contains_key(superfile_id) ==> ({
            let entry = cache@.entries[superfile_id];
            &&& (exists|row: u32| entry.deleted.contains(row)) ==> (stale <==> now
                >= entry.last_checked + cache@.refresh_ttl || cache@.refresh_ttl == 0)
            &&& (forall|row: u32| !entry.deleted.contains(row)) ==> (stale <==> now
                >= entry.last_checked + cache@.negative_ttl || cache@.negative_ttl == 0)
        }),
{
    if cache@.entries.contains_key(superfile_id) {
        let entry = cache@.entries[superfile_id];
        if forall|row: u32| !entry.deleted.contains(row) {
            assert(entry.deleted =~= Set::<u32>::empty());
        }
    }
}

/// Of the given superfiles exactly those are asked for that a lookup would ask
/// for, in their order.
pub proof fn lemma_prefetch_asks_for_the_stale(
    cache: SidecarCache,
    ids: &[u128],
    now: u64,
    stale: Vec<u128>,
)
    requires
        call_ensures(SidecarCache::prefetch, (&cache, ids, now), stale),
    ensures
        stale@ == ids@.filter(|id: u128| cache@.is_stale(id, now)),
{
    lemma_stale_ids_filter(cache@, ids@, now);
}

proof fn lemma_stale_ids_filter(cache: SidecarCacheView, ids: Seq<u128>, now: u64)
    ensures
        stale_ids(cache, ids, now) == ids.filter(|id: u128| cache.is_stale(id, now)),
    decreases ids.len(),
{
    reveal(Seq::filter);
    if ids.len() > 0 {
        lemma_stale_ids_filter(cache, ids.drop_last(), now);
    }
}

/// The entry that the reply of storage makes.
fn entry_of(reply: Option<Sidecar>, now: u64) -> (entry: CachedSidecar)
    ensures
        sidecar_view(entry) == reply_view(reply, now),
        forall|row: u32| #[trigger]
            bitmap_contents(*entry.1).contains(row) <==> (reply matches Some(sidecar)
                && bitmap_contents(sidecar.bitmap).contains(row)),
        entry.3 == now,
{
    match reply {
        Some(sidecar) => (Some(sidecar.etag), Arc::new(sidecar.bitmap), sidecar.seal, now),
        None => (None, Arc::new(empty_bitmap()), None, now),
    }
}

impl SidecarCache {
    /// A cache that knows nothing yet.
    pub fn new(refresh_ttl: u64) -> (cache: Self)
        ensures
            cache@ == (SidecarCacheView {
                entries: Map::empty(),
                refresh_ttl,
                negative_ttl: DEFAULT_NEGATIVE_TTL,
            }),
    {
        let entries = new_sidecars();
        assert(sidecar_contents(entries) =~= Map::<u128, SidecarView>::empty());
        SidecarCache { entries, refresh_ttl, negative_ttl: DEFAULT_NEGATIVE_TTL }
    }

    /// How long an entry is taken as known.
    pub fn ttl_for_empty(&self, is_empty: bool) -> (ttl: u64)
        ensures
            ttl == self@.ttl(is_empty),
    {
        if is_empty {
            self.negative_ttl
        } else {
            self.refresh_ttl
        }
    }

    /// Has storage to be asked for the superfile?
    pub fn needs_refresh(&self, superfile_id: u128, now: u64) -> (res: bool)
        ensures
            res == self@.is_stale(superfile_id, now),
    {
        match sidecar_get(&self.entries, superfile_id) {
            Some((_, bitmap, _, last_checked)) => {
                let ttl = self.ttl_for_empty(bitmap_is_empty(&bitmap));
                now.saturating_sub(last_checked) >= ttl
            },
            None => true,
        }
    }

    /// The superfiles that storage has to be asked for, in their order. With
    /// the replies handed to [`SidecarCache::absorb`], they are known.
    pub fn prefetch(&self, superfile_ids: &[u128], now: u64) -> (stale: Vec<u128>)
        ensures
            stale@ == stale_ids(self@, superfile_ids@, now),
    {
        let mut stale: Vec<u128> = Vec::new();
        let mut i: usize = 0;
        while i < superfile_ids.len()
            invariant
                i <= superfile_ids@.len(),
                stale@ == stale_ids(self@, superfile_ids@.take(i as int), now),
            decreases superfile_ids.len() - i,
        {
            assert(superfile_ids@.take(i + 1).drop_last() =~= superfile_ids@.take(i as int));
            if self.needs_refresh(superfile_ids[i], now) {
                stale.push(superfile_ids[i]);
            }
            i = i + 1;
        }
        assert(superfile_ids@.take(superfile_ids@.len() as int) =~= superfile_ids@);
        stale
    }

    /// Takes in the replies of storage. An error is left for the lookup of its
    /// superfile.
    pub fn absorb(&mut self, replies: Vec<(u128, SidecarReply)>, now: u64)
        ensures
            final(self)@ == old(self)@.absorbed(replies@, now),
    {
        let ghost all = replies@;
        assert(all.take(0) =~= Seq::empty());
        for item in it: replies
            invariant
                it.seq() == all,
                self@ == old(self)@.absorbed(all.take(it.index() as int), now),
        {
            assert(all.take(it.index() + 1).drop_last() =~= all.take(it.index() as int));
            let (superfile_id, reply) = item;
            match reply {
                Ok(found) => {
                    sidecar_insert(&mut self.entries, superfile_id, entry_of(found, now));
                },
                Err(_) => {},
            }
        }
        assert(all.take(all.len() as int) =~= all);
    }

    /// The deleted rows and the seal record of the superfile, if they are
    /// known. If not, [`SidecarCache::refresh`] takes in what storage says.
    pub fn sidecar_for(&self, superfile_id: u128, now: u64) -> (known: Option<
        (Arc<RoaringBitmap>, Option<Vec<u8>>),
    >)
        ensures
            known is Some <==> !self@.is_stale(superfile_id, now),
            known matches Some((bitmap, seal)) ==> bitmap_contents(*bitmap)
                == self@.entries[superfile_id].deleted && optional_bytes(seal)
                == self@.entries[superfile_id].seal,
    {
        if self.needs_refresh(superfile_id, now) {
            return None;
        }
        match sidecar_get(&self.entries, superfile_id) {
            Some((_, bitmap, seal, _)) => Some((bitmap, seal)),
            None => None,
        }
    }

    /// The deleted rows of the superfile, if they are known.
    pub fn bitmap_for(&self, superfile_id: u128, now: u64) -> (known: Option<Arc<RoaringBitmap>>)
        ensures
            known is Some <==> !self@.is_stale(superfile_id, now),
            known matches Some(bitmap) ==> bitmap_contents(*bitmap)
                == self@.entries[superfile_id].deleted,
    {
        match self.sidecar_for(superfile_id, now) {
            Some((bitmap, _)) => Some(bitmap),
            None => None,
        }
    }

    /// The seal record of the superfile, if it is known whether it has one.
    pub fn seal_for(&self, superfile_id: u128, now: u64) -> (known: Option<Option<Vec<u8>>>)
        ensures
            known is Some <==> !self@.is_stale(superfile_id, now),
            known matches Some(seal) ==> optional_bytes(seal) == self@.entries[superfile_id].seal,
    {
        match self.sidecar_for(superfile_id, now) {
            Some((_, seal)) => Some(seal),
            None => None,
        }
    }

    /// Takes in what storage says of the superfile, and returns its deleted
    /// rows and its seal record. After an error, what was known stays.
    pub fn refresh(&mut self, superfile_id: u128, reply: SidecarReply, now: u64) -> (res: Result<
        (Arc<RoaringBitmap>, Option<Vec<u8>>),
        SidecarCacheError,
    >)
        ensures
            match reply {
                Err(message) => res == Err::<
                    (Arc<RoaringBitmap>, Option<Vec<u8>>),
                    SidecarCacheError,
                >(SidecarCacheError::RefreshFailed { superfile_id, message }) && final(self)@
                    == old(self)@,
                Ok(found) => res matches Ok((bitmap, seal)) && bitmap_contents(*bitmap)
                    == reply_view(found, now).deleted && optional_bytes(seal) == reply_view(
                    found,
                    now,
                ).seal && final(self)@ == (SidecarCacheView {
                    entries: old(self)@.entries.insert(superfile_id, reply_view(found, now)),
                    ..old(self)@
                }),
            },
            reply matches Ok(found) ==> forall|row: u32|
                #![trigger bitmap_contents(*res->Ok_0.0).contains(row)]
                #![trigger final(self)@.entries[superfile_id].deleted.contains(row)]
                {
                    let gone = found matches Some(sidecar) && bitmap_contents(
                        sidecar.bitmap,
                    ).contains(row);
                    &&& bitmap_contents(*res->Ok_0.0).contains(row) <==> gone
                    &&& final(self)@.entries[superfile_id].deleted.contains(row) <==> gone
                },
            forall|other: u128|
                other != superfile_id ==> (#[trigger] final(self)@.entries.contains_key(other)
                    <==> old(self)@.entries.contains_key(other)) && final(self)@.entries[other]
                    == old(self)@.entries[other],
    {
        match reply {
            Err(message) => Err(SidecarCacheError::RefreshFailed { superfile_id, message }),
            Ok(found) => {
                let (etag, bitmap, seal, checked) = entry_of(found, now);
                let shared = bitmap.clone();
                let copy = copy_optional(&seal);
                sidecar_insert(&mut self.entries, superfile_id, (etag, shared, copy, checked));
                Ok((bitmap, seal))
            },
        }
    }

    /// Forgets the superfile, so that the next lookup asks storage.
    pub fn invalidate(&mut self, superfile_id: u128)
        ensures
            final(self)@ == (SidecarCacheView {
                entries: old(self)@.entries.remove(superfile_id),
                ..old(self)@
            }),
            forall|now: u64| #[trigger] final(self)@.is_stale(superfile_id, now),
    {
        sidecar_remove(&mut self.entries, superfile_id);
    }

    /// How many superfiles have an entry.
    pub fn len(&self) -> (len: usize)
        ensures
            len == self@.entries.dom().len(),
    {
        sidecar_len(&self.entries)
    }

    /// Has no superfile an entry?
    pub fn is_empty(&self) -> (res: bool)
        ensures
            res == (self@.entries == Map::<u128, SidecarView>::empty()),
    {
        let res = sidecar_len(&self.entries) == 0;
        assert(res ==> self@.entries =~= Map::<u128, SidecarView>::empty());
        res
    }
}

/// A copy of an optional record.
fn copy_optional(bytes: &Option<Vec<u8>>) -> (copy: Option<Vec<u8>>)
    ensures
        optional_bytes(copy) == optional_bytes(*bytes),
{
    match bytes {
        Some(bytes) => {
            let copy = bytes.clone();
            assert(copy@ =~= bytes@);
            Some(copy)
        },
        None => None,
    }
}

/// What is taken in is known by the next lookup: the deleted rows and the seal
/// record of the superfile are those of the last reply about it that is no
/// error.
pub proof fn lemma_absorbed_is_looked_up(
    cache: &mut SidecarCache,
    replies: Vec<(u128, SidecarReply)>,
    asked: u64,
    i: int,
    after: SidecarCache,
    now: u64,
    known: Option<(Arc<RoaringBitmap>, Option<Vec<u8>>)>,
    row: u32,
)
    requires
        call_ensures(SidecarCache::absorb, (cache, replies, asked), ()),
        after == *final(cache),
        0 <= i < replies@.len(),
        replies@[i].1 is Ok,
        forall|j: int|
            i < j < replies@.len() && (#[trigger] replies@[j]).0 == replies@[i].0
                ==> replies@[j].1 is Err,
        call_ensures(SidecarCache::sidecar_for, (&after, replies@[i].0, now), known),
    ensures
        known matches Some((bitmap, seal)) ==> match replies@[i].1->Ok_0 {
            Some(sidecar) => (bitmap_contents(*bitmap).contains(row) <==> bitmap_contents(
                sidecar.bitmap,
            ).contains(row)) && (seal is Some <==> sidecar.seal is Some) && (seal is Some
                ==> seal->0@ == sidecar.seal->0@),
            None => !bitmap_contents(*bitmap).contains(row) && seal is None,
        },
{
    lemma_last_reply_is_known(old(cache)@, replies@, asked, i);
    let entry = after@.entries[replies@[i].0];
    if let Some(sidecar) = replies@[i].1->Ok_0 {
        assert(entry.deleted.contains(row) <==> bitmap_contents(sidecar.bitmap).contains(row));
    }
}

/// A superfile that is forgotten has to be asked for again, whenever; what is
/// known of the others stays.
pub proof fn lemma_forgotten_is_asked_for(
    cache: &mut SidecarCache,
    superfile_id: u128,
    after: SidecarCache,
    now: u64,
    stale: bool,
    other: u128,
)
    requires
        call_ensures(SidecarCache::invalidate, (cache, superfile_id), ()),
        after == *final(cache),
        call_ensures(SidecarCache::needs_refresh, (&after, superfile_id, now), stale),
    ensures
        stale,
        other != superfile_id ==> (after@.entries.contains_key(other)
            <==> old(cache)@.entries.contains_key(other)),
        other != superfile_id && after@.entries.contains_key(other) ==> after@.entries[other]
            == old(cache)@.entries[other],
{
}

/// A refresh gives and keeps exactly what storage said: the deleted rows and the
/// seal record of the sidecar, or no deleted rows without one. If storage failed
/// so does the refresh, and what was known stays. No other superfile changes.
pub proof fn lemma_refresh_keeps_the_reply(
    cache: &mut SidecarCache,
    superfile_id: u128,
    reply: SidecarReply,
    now: u64,
    res: Result<(Arc<RoaringBitmap>, Option<Vec<u8>>), SidecarCacheError>,
    row: u32,
    other: u128,
)
    requires
        call_ensures(SidecarCache::refresh, (cache, superfile_id, reply, now), res),
    ensures
        ({
            let (before, after) = (old(cache)@, final(cache)@);
            let entry = after.entries[superfile_id];
            &&& res is Ok <==> reply is Ok
            &&& reply is Err ==> after == before
            &&& reply matches Ok(found) ==> after.entries.contains_key(superfile_id)
                && entry.last_checked == now
            &&& reply matches Ok(Some(sidecar)) ==> (bitmap_contents(*res->Ok_0.0).contains(row)
                <==> bitmap_contents(sidecar.bitmap).contains(row)) && (entry.deleted.contains(row)
                <==> bitmap_contents(sidecar.bitmap).contains(row)) && entry.etag == Some(
                sidecar.etag@,
            ) && (res->Ok_0.1 is Some <==> sidecar.seal is Some) && (sidecar.seal is Some
                ==> res->Ok_0.1->0@ == sidecar.seal->0@ && entry.seal == Some(sidecar.seal->0@))
            &&& reply matches Ok(None) ==> !bitmap_contents(*res->Ok_0.0).contains(row)
                && !entry.deleted.contains(row) && res->Ok_0.1 is None && entry.seal is None
                && entry.etag is None
            &&& other != superfile_id ==> (after.entries.contains_key(other)
                <==> before.entries.contains_key(other)) && after.entries[other]
                == before.entries[other]
            &&& after.refresh_ttl == before.refresh_ttl && after.negative_ttl
                == before.negative_ttl
        }),
{
}

} // verus!
