//! Byte ranges of an object that need not be in memory as a whole.
//!
//! What can be served at once is served here; what has to be fetched is
//! handed to the caller as a request, and taken back when it has arrived.

use std::sync::Arc;
use bytes::Bytes;
use vstd::prelude::*;
use vstd::string::StringExecFns;
use crate::storage::StorageError;
use crate::superfile::buffer::{buffer_contents, buffer_len, buffer_slice};
use crate::supertable::manifest::error::joined;
use crate::text::{decimal, push_decimal};

verus! {

/// Why a range could not be read.
#[derive(Debug, Clone, PartialEq, Eq)]
pub enum LazyByteSourceError {
    /// Storage failed.
    Storage(StorageError),
    /// The range lies outside the object.
    OutOfBounds { start: u64, len: u64, size: u64 },
    /// Storage returned fewer bytes than were asked for.
    ShortRead { start: u64, requested: u64, got: u64 },
}

impl LazyByteSourceError {
    pub open spec fn message_spec(&self) -> Seq<char> {
        match self {
            LazyByteSourceError::Storage(e) => "lazy source storage: "@ + e@.message(),
            LazyByteSourceError::OutOfBounds { start, len, size } =>
                "range out of bounds: start="@ + decimal(*start as nat) + " len="@ + decimal(
                    *len as nat,
                ) + " size="@ + decimal(*size as nat),
            LazyByteSourceError::ShortRead { start, requested, got } => "short read: start="@
                + decimal(*start as nat) + " requested="@ + decimal(*requested as nat) + " got="@
                + decimal(*got as nat),
        }
    }

    /// The message for this error.
    pub fn message(&self) -> (text: String)
        ensures
            text@ == self.message_spec(),
    {
        match self {
            LazyByteSourceError::Storage(e) => {
                let inner = e.message();
                joined("lazy source storage: ", &inner)
            },
            LazyByteSourceError::OutOfBounds { start, len, size } => {
                let mut text = "range out of bounds: start=".to_owned();
                push_decimal(&mut text, *start);
                text.append(" len=");
                push_decimal(&mut text, *len);
                text.append(" size=");
                push_decimal(&mut text, *size);
                text
            },
            LazyByteSourceError::ShortRead { start, requested, got } => {
                let mut text = "short read: start=".to_owned();
                push_decimal(&mut text, *start);
                text.append(" requested=");
                push_decimal(&mut text, *requested);
                text.append(" got=");
                push_decimal(&mut text, *got);
                text
            },
        }
    }
}

impl From<StorageError> for LazyByteSourceError {
    fn from(error: StorageError) -> (lifted: Self) {
        LazyByteSourceError::Storage(error)
    }
}

impl vstd::std_specs::convert::FromSpecImpl<StorageError> for LazyByteSourceError {
    open spec fn obeys_from_spec() -> bool {
        true
    }

    open spec fn from_spec(error: StorageError) -> Self {
        LazyByteSourceError::Storage(error)
    }
}

/// The error for a range outside an object of `size` bytes.
pub open spec fn out_of_bounds(start: u64, len: u64, size: u64) -> LazyByteSourceError {
    LazyByteSourceError::OutOfBounds { start, len, size }
}

/// The `len` bytes of `object` from `start` on.
pub open spec fn range_of(object: Seq<u8>, start: int, len: int) -> Seq<u8> {
    object.subrange(start, start + len)
}

/// Does the range end within `size` bytes?
fn in_bounds(start: u64, len: u64, size: u64) -> (res: bool)
    ensures
        res == (start + len <= size),
{
    match start.checked_add(len) {
        Some(end) => end <= size,
        None => false,
    }
}

/// A source of byte ranges of one object.
pub trait LazyByteSource: Sized {
    /// The size of the object, or 0 if it is not known yet.
    fn size(&self) -> (size: u64);

    /// The range, if it can be had without waiting.
    fn try_get_range_sync(&self, start: u64, len: u64) -> (res: Option<Bytes>);
}

/// Is `size` what `source` answers when it is asked for its size?
pub open spec fn sized<S: LazyByteSource>(source: S, size: u64) -> bool {
    call_ensures(S::size, (&source,), size)
}

/// Is `res` what `source` answers when it is asked for a range without
/// waiting?
pub open spec fn at_hand<S: LazyByteSource>(source: S, start: u64, len: u64, res: Option<Bytes>) ->
    bool {
    call_ensures(S::try_get_range_sync, (&source, start, len), res)
}

/// Are the bytes, if there are any, the range of `object`?
pub open spec fn is_range(res: Option<Bytes>, object: Seq<u8>, start: u64, len: u64) -> bool {
    res matches Some(bytes) ==> start + len <= object.len() && buffer_contents(bytes) == range_of(
        object,
        start as int,
        len as int,
    )
}

/// Are all bytes that `source` answers with those of `object`?
pub open spec fn tells_of<S: LazyByteSource>(source: S, object: Seq<u8>) -> bool {
    forall|start: u64, len: u64, res: Option<Bytes>| #[trigger]
        at_hand(source, start, len, res) ==> is_range(res, object, start, len)
}

// ---- In memory --------------------------------------------------------------

/// An object in memory.
pub struct BytesLazyByteSource {
    bytes: Bytes,
}

impl BytesLazyByteSource {
    /// The object.
    pub closed spec fn object(&self) -> Seq<u8> {
        buffer_contents(self.bytes)
    }

    /// The object `bytes`.
    pub fn new(bytes: Bytes) -> (source: Self)
        ensures
            source.object() == buffer_contents(bytes),
    {
        BytesLazyByteSource { bytes }
    }

    /// The range, or that it lies outside the object.
    pub fn range(&self, start: u64, len: u64) -> (res: Result<Bytes, LazyByteSourceError>)
        ensures
            start + len <= self.object().len() ==> (res matches Ok(bytes) && buffer_contents(bytes)
                == range_of(self.object(), start as int, len as int)),
            start + len > self.object().len() ==> res == Err::<Bytes, LazyByteSourceError>(
                out_of_bounds(start, len, self.object().len() as u64),
            ),
    {
        let total = buffer_len(&self.bytes) as u64;
        if !in_bounds(start, len, total) {
            return Err(LazyByteSourceError::OutOfBounds { start, len, size: total });
        }
        Ok(buffer_slice(&self.bytes, start as usize, (start + len) as usize))
    }

    /// The last `len` bytes, or all of a smaller object, and the size of the
    /// object. An empty object has no tail.
    pub fn tail(&self, len: u64) -> (res: Result<(Bytes, u64), LazyByteSourceError>)
        ensures
            match tail_range(self.object().len(), len) {
                Err(e) => res == Err::<(Bytes, u64), LazyByteSourceError>(e),
                Ok((start, n)) => res matches Ok((bytes, size)) && size == self.object().len()
                    && buffer_contents(bytes) == range_of(self.object(), start as int, n as int),
            },
    {
        let size = buffer_len(&self.bytes) as u64;
        let (start, len) = plan_tail(size, len)?;
        let bytes = self.range(start, len)?;
        Ok((bytes, size))
    }
}

impl LazyByteSource for BytesLazyByteSource {
    fn size(&self) -> (size: u64)
        ensures
            size == self.object().len(),
    {
        buffer_len(&self.bytes) as u64
    }

    fn try_get_range_sync(&self, start: u64, len: u64) -> (res: Option<Bytes>)
        ensures
            res is Some <==> start + len <= self.object().len(),
            is_range(res, self.object(), start, len),
    {
        match self.range(start, len) {
            Ok(bytes) => Some(bytes),
            Err(_) => None,
        }
    }
}

/// An object in memory answers with its own bytes.
pub proof fn lemma_memory_tells_of_object(source: BytesLazyByteSource)
    ensures
        tells_of(source, source.object()),
{
}

/// The range that the last `len` bytes of an object of `size` bytes are: all
/// of it if it is smaller. An object without bytes, or of unknown size, has
/// none.
pub open spec fn tail_range(size: nat, len: u64) -> Result<(u64, u64), LazyByteSourceError> {
    if size == 0 {
        Err(out_of_bounds(0, len, 0))
    } else if len <= size {
        Ok(((size - len) as u64, len))
    } else {
        Ok((0, size as u64))
    }
}

/// The range to read for the last `len` bytes of an object of `size` bytes.
pub fn plan_tail(size: u64, len: u64) -> (res: Result<(u64, u64), LazyByteSourceError>)
    ensures
        res == tail_range(size as nat, len),
        res matches Ok((start, n)) ==> start + n == size && n <= len,
{
    if size == 0 {
        return Err(LazyByteSourceError::OutOfBounds { start: 0, len, size: 0 });
    }
    if len <= size {
        Ok((size - len, len))
    } else {
        Ok((0, size))
    }
}

/// A range that is at hand, or has to be fetched.
pub enum RangeStep {
    /// The bytes.
    Ready(Bytes),
    /// Fetch `len` bytes from `start` on of the underlying object.
    Fetch { start: u64, len: u64 },
}

// ---- A section of another source --------------------------------------------

/// A section of another source: `len` bytes from `offset` on.
pub struct LazySubSource<S: LazyByteSource> {
    inner: Arc<S>,
    offset: u64,
    len: u64,
}

impl<S: LazyByteSource> LazySubSource<S> {
    /// The section ends within the largest offset.
    #[verifier::type_invariant]
    spec fn end_fits(self) -> bool {
        self.offset + self.len <= u64::MAX
    }

    /// Where the section starts, and how many bytes it has.
    pub closed spec fn section(&self) -> (u64, u64) {
        (self.offset, self.len)
    }

    /// The other source.
    pub closed spec fn inner_source(&self) -> S {
        *self.inner
    }

    /// The section of `inner` with `len` bytes from `offset` on.
    pub fn new(inner: Arc<S>, offset: u64, len: u64) -> (source: Self)
        requires
            exists|size: u64| #[trigger] sized(*inner, size) && offset + len <= size,
        ensures
            source.section() == (offset, len),
            source.inner_source() == *inner,
    {
        LazySubSource { inner, offset, len }
    }

    /// The range of the underlying object that a range of the section is. An
    /// error speaks of the section, not of the underlying object.
    pub fn range(&self, start: u64, len: u64) -> (res: Result<RangeStep, LazyByteSourceError>)
        ensures
            start + len <= self.section().1 ==> (res matches Ok(
                RangeStep::Fetch { start: from, len: n },
            ) && from == self.section().0 + start && n == len),
            start + len > self.section().1 ==> res == Err::<RangeStep, LazyByteSourceError>(
                out_of_bounds(start, len, self.section().1),
            ),
    {
        proof {
            use_type_invariant(self);
        }
        if !in_bounds(start, len, self.len) {
            return Err(LazyByteSourceError::OutOfBounds { start, len, size: self.len });
        }
        Ok(RangeStep::Fetch { start: self.offset + start, len })
    }

    /// A description of the section.
    pub fn debug_text(&self) -> (text: String)
        ensures
            text@ == "LazySubSource { offset: "@ + decimal(self.section().0 as nat) + ", len: "@
                + decimal(self.section().1 as nat) + " }"@,
    {
        let mut text = "LazySubSource { offset: ".to_owned();
        push_decimal(&mut text, self.offset);
        text.append(", len: ");
        push_decimal(&mut text, self.len);
        text.append(" }");
        text
    }
}

impl<S: LazyByteSource> LazyByteSource for LazySubSource<S> {
    fn size(&self) -> (size: u64)
        ensures
            size == self.section().1,
    {
        self.len
    }

    fn try_get_range_sync(&self, start: u64, len: u64) -> (res: Option<Bytes>)
        ensures
            start + len > self.section().1 ==> res is None,
            start + len <= self.section().1 ==> self.section().0 + start <= u64::MAX && at_hand(
                self.inner_source(),
                (self.section().0 + start) as u64,
                len,
                res,
            ),
    {
        proof {
            use_type_invariant(self);
        }
        if !in_bounds(start, len, self.len) {
            return None;
        }
        self.inner.try_get_range_sync(self.offset + start, len)
    }
}

/// A range of a section is the range of the object that lies as much further
/// on as the section does.
pub proof fn lemma_section_range(object: Seq<u8>, offset: int, len: int, start: int, n: int)
    requires
        0 <= offset,
        offset + len <= object.len(),
        0 <= start,
        0 <= n,
        start + n <= len,
    ensures
        range_of(object, offset + start, n) == range_of(range_of(object, offset, len), start, n),
{
    assert(range_of(object, offset + start, n) =~= range_of(
        range_of(object, offset, len),
        start,
        n,
    ));
}

/// A section of a source answers with the bytes of the section of its object.
pub proof fn lemma_section_tells_of_section<S: LazyByteSource>(
    source: LazySubSource<S>,
    object: Seq<u8>,
)
    requires
        tells_of(source.inner_source(), object),
        source.section().0 + source.section().1 <= object.len(),
    ensures
        tells_of(
            source,
            range_of(object, source.section().0 as int, source.section().1 as int),
        ),
{
    let (offset, len) = source.section();
    let section = range_of(object, offset as int, len as int);
    assert forall|start: u64, n: u64, res: Option<Bytes>| #[trigger]
        at_hand(source, start, n, res) implies is_range(res, section, start, n) by {
        if start + n <= len {
            assert(at_hand(source.inner_source(), (offset + start) as u64, n, res));
            lemma_section_range(object, offset as int, len as int, start as int, n as int);
        }
    }
}

// ---- Ranges fetched ahead ---------------------------------------------------

/// Ranges that were fetched ahead, over another source.
pub struct PrefetchedSource<S: LazyByteSource> {
    inner: Arc<S>,
    prefetched: Vec<(u64, Bytes)>,
}

/// The ranges fetched ahead over sequences: offset and bytes.
pub type Prefetched = Seq<(u64, Seq<u8>)>;

/// Does the installed range hold all of `start..start + len`?
pub open spec fn covers(installed: (u64, Seq<u8>), start: u64, len: u64) -> bool {
    installed.0 <= start && start + len <= installed.0 + installed.1.len()
}

/// The bytes of the first installed range that holds all of the request.
pub open spec fn overlay(prefetched: Prefetched, start: u64, len: u64) -> Option<Seq<u8>>
    decreases prefetched.len(),
{
    if prefetched.len() == 0 {
        None
    } else if covers(prefetched[0], start, len) {
        Some(range_of(prefetched[0].1, start - prefetched[0].0, len as int))
    } else {
        overlay(prefetched.subrange(1, prefetched.len() as int), start, len)
    }
}

/// How many bytes the installed ranges have together.
pub open spec fn installed_bytes(prefetched: Prefetched) -> nat
    decreases prefetched.len(),
{
    if prefetched.len() == 0 {
        0
    } else {
        installed_bytes(prefetched.drop_last()) + prefetched.last().1.len()
    }
}

proof fn lemma_installed_bytes_grow(prefetched: Prefetched, i: int)
    requires
        0 <= i <= prefetched.len(),
    ensures
        installed_bytes(prefetched.take(i)) <= installed_bytes(prefetched),
    decreases prefetched.len() - i,
{
    if i < prefetched.len() {
        lemma_installed_bytes_grow(prefetched, i + 1);
        assert(prefetched.take(i + 1).drop_last() =~= prefetched.take(i));
    } else {
        assert(prefetched.take(i) =~= prefetched);
    }
}

/// Does every installed range hold bytes of `object`?
pub open spec fn agree(prefetched: Prefetched, object: Seq<u8>) -> bool {
    forall|i: int|
        0 <= i < prefetched.len() ==> {
            let (start, bytes) = #[trigger] prefetched[i];
            start + bytes.len() <= object.len() && bytes == range_of(
                object,
                start as int,
                bytes.len() as int,
            )
        }
}

/// What is served from installed ranges of an object are the object's bytes.
pub proof fn lemma_overlay_agrees(prefetched: Prefetched, object: Seq<u8>, start: u64, len: u64)
    requires
        agree(prefetched, object),
    ensures
        overlay(prefetched, start, len) matches Some(bytes) ==> start + len <= object.len() && bytes
            == range_of(object, start as int, len as int),
    decreases prefetched.len(),
{
    if prefetched.len() > 0 {
        if covers(prefetched[0], start, len) {
            let (from, bytes) = prefetched[0];
            assert(range_of(bytes, start - from, len as int) =~= range_of(
                object,
                start as int,
                len as int,
            ));
        } else {
            let rest = prefetched.subrange(1, prefetched.len() as int);
            assert forall|i: int| 0 <= i < rest.len() implies {
                let (from, bytes) = #[trigger] rest[i];
                from + bytes.len() <= object.len() && bytes == range_of(
                    object,
                    from as int,
                    bytes.len() as int,
                )
            } by {
                assert(rest[i] == prefetched[i + 1]);
            }
            lemma_overlay_agrees(rest, object, start, len);
        }
    }
}

impl<S: LazyByteSource> PrefetchedSource<S> {
    /// No installed range reaches beyond the largest offset.
    #[verifier::type_invariant]
    spec fn ends_fit(self) -> bool {
        forall|i: int|
            0 <= i < self.prefetched@.len() ==> (#[trigger] self.prefetched@[i]).0
                + buffer_contents(self.prefetched@[i].1).len() <= u64::MAX
    }

    pub closed spec fn installed(&self) -> Prefetched {
        self.prefetched@.map_values(|e: (u64, Bytes)| (e.0, buffer_contents(e.1)))
    }

    /// The other source.
    pub closed spec fn inner_source(&self) -> S {
        *self.inner
    }

    /// A source without installed ranges.
    pub fn new(inner: Arc<S>) -> (source: Self)
        ensures
            source.installed() == Prefetched::empty(),
            source.inner_source() == *inner,
    {
        let source = PrefetchedSource { inner, prefetched: Vec::new() };
        assert(source.installed() =~= Prefetched::empty());
        source
    }

    /// Installs bytes of the object from `start` on. Every range within them
    /// is served from them from now on.
    pub fn install(&mut self, start: u64, bytes: Bytes)
        requires
            start + buffer_contents(bytes).len() <= u64::MAX,
        ensures
            final(self).installed() == old(self).installed().push((start, buffer_contents(bytes))),
            final(self).inner_source() == old(self).inner_source(),
    {
        proof {
            use_type_invariant(&*self);
        }
        let ghost before = self.installed();
        let mut prefetched: Vec<(u64, Bytes)> = Vec::new();
        std::mem::swap(&mut prefetched, &mut self.prefetched);
        prefetched.push((start, bytes));
        std::mem::swap(&mut prefetched, &mut self.prefetched);
        assert(self.installed() =~= before.push((start, buffer_contents(bytes))));
    }

    /// The range from an installed one, if one holds all of it.
    pub fn lookup(&self, start: u64, len: u64) -> (res: Option<Bytes>)
        ensures
            res is Some <==> overlay(self.installed(), start, len) is Some,
            res matches Some(bytes) ==> overlay(self.installed(), start, len) == Some(
                buffer_contents(bytes),
            ),
    {
        proof {
            use_type_invariant(self);
        }
        let ghost all = self.installed();
        let mut i: usize = 0;
        assert(all.skip(0) =~= all);
        while i < self.prefetched.len()
            invariant
                i <= self.prefetched@.len(),
                all == self.installed(),
                forall|k: int|
                    0 <= k < self.prefetched@.len() ==> (#[trigger] self.prefetched@[k]).0
                        + buffer_contents(self.prefetched@[k].1).len() <= u64::MAX,
                overlay(all, start, len) == overlay(all.skip(i as int), start, len),
            decreases self.prefetched.len() - i,
        {
            let from = self.prefetched[i].0;
            let n = buffer_len(&self.prefetched[i].1) as u64;
            let ghost rest = all.skip(i as int);
            assert(rest[0] == (from, buffer_contents(self.prefetched@[i as int].1)));
            assert(rest.subrange(1, rest.len() as int) =~= all.skip(i + 1));
            if from <= start && in_bounds(start, len, from + n) {
                let at = (start - from) as usize;
                return Some(buffer_slice(&self.prefetched[i].1, at, at + len as usize));
            }
            i = i + 1;
        }
        None
    }

    /// The range: from an installed one, or to be fetched.
    pub fn range(&self, start: u64, len: u64) -> (step: RangeStep)
        ensures
            match overlay(self.installed(), start, len) {
                Some(contents) => step matches RangeStep::Ready(bytes) && buffer_contents(bytes)
                    == contents,
                None => step == (RangeStep::Fetch { start, len }),
            },
    {
        match self.lookup(start, len) {
            Some(bytes) => RangeStep::Ready(bytes),
            None => RangeStep::Fetch { start, len },
        }
    }

    /// A description of the source.
    pub fn debug_text(&self) -> (text: String)
        requires
            installed_bytes(self.installed()) <= usize::MAX,
        ensures
            exists|size: u64| #[trigger]
                sized(self.inner_source(), size) && text@ == "PrefetchedSource { size: "@ + decimal(
                    size as nat,
                ) + ", prefetched_count: "@ + decimal(self.installed().len())
                    + ", prefetched_bytes: "@ + decimal(installed_bytes(self.installed())) + " }"@,
    {
        let ghost installed = self.installed();
        let mut total: usize = 0;
        let mut i: usize = 0;
        assert(installed.take(installed.len() as int) =~= installed);
        while i < self.prefetched.len()
            invariant
                installed == self.installed(),
                installed.len() == self.prefetched@.len(),
                i <= installed.len(),
                total == installed_bytes(installed.take(i as int)),
                installed_bytes(installed) <= usize::MAX,
            decreases self.prefetched.len() - i,
        {
            proof {
                assert(installed.take(i + 1).drop_last() =~= installed.take(i as int));
                assert(installed.take(i + 1).last().1 == buffer_contents(
                    self.prefetched@[i as int].1,
                ));
                lemma_installed_bytes_grow(installed, i + 1);
            }
            total = total + buffer_len(&self.prefetched[i].1);
            i = i + 1;
        }
        let size = self.inner.size();
        assert(sized(self.inner_source(), size));
        let mut text = "PrefetchedSource { size: ".to_owned();
        push_decimal(&mut text, size);
        text.append(", prefetched_count: ");
        push_decimal(&mut text, self.prefetched.len() as u64);
        text.append(", prefetched_bytes: ");
        push_decimal(&mut text, total as u64);
        text.append(" }");
        text
    }
}

impl<S: LazyByteSource> LazyByteSource for PrefetchedSource<S> {
    fn size(&self) -> (size: u64)
        ensures
            sized(self.inner_source(), size),
    {
        self.inner.size()
    }

    fn try_get_range_sync(&self, start: u64, len: u64) -> (res: Option<Bytes>)
        ensures
            overlay(self.installed(), start, len) matches Some(contents) ==> (res matches Some(
                bytes,
            ) && buffer_contents(bytes) == contents),
            overlay(self.installed(), start, len) is None ==> at_hand(
                self.inner_source(),
                start,
                len,
                res,
            ),
    {
        match self.lookup(start, len) {
            Some(bytes) => Some(bytes),
            None => self.inner.try_get_range_sync(start, len),
        }
    }
}

/// A source with installed ranges answers with the bytes of the object that
/// both the ranges and the other source tell of.
pub proof fn lemma_prefetched_tells_of_object<S: LazyByteSource>(
    source: PrefetchedSource<S>,
    object: Seq<u8>,
)
    requires
        agree(source.installed(), object),
        tells_of(source.inner_source(), object),
    ensures
        tells_of(source, object),
{
    assert forall|start: u64, len: u64, res: Option<Bytes>| #[trigger]
        at_hand(source, start, len, res) implies is_range(res, object, start, len) by {
        lemma_overlay_agrees(source.installed(), object, start, len);
        if overlay(source.installed(), start, len) is None {
            assert(at_hand(source.inner_source(), start, len, res));
        }
    }
}

// ---- Either kind of source --------------------------------------------------

/// An object in memory, or one that ranges are fetched of.
pub enum Source<S: LazyByteSource> {
    InMemory(Bytes),
    Lazy(Arc<S>),
}

/// A range of an object: from `start` up to `end`.
#[derive(Debug, Clone, Copy, PartialEq, Eq, Structural)]
pub struct ByteRange {
    pub start: usize,
    pub end: usize,
}

impl ByteRange {
    /// How many bytes the range has.
    pub open spec fn len(self) -> int {
        self.end - self.start
    }

    /// The range of `object`.
    pub open spec fn of(self, object: Seq<u8>) -> Seq<u8> {
        object.subrange(self.start as int, self.end as int)
    }
}

impl<S: LazyByteSource> Source<S> {
    /// Is `len` the size of the object, as far as it is known?
    pub open spec fn has_len(&self, len: usize) -> bool {
        match self {
            Source::InMemory(bytes) => len == buffer_contents(*bytes).len(),
            Source::Lazy(source) => exists|size: u64| #[trigger]
                sized(**source, size) && len == size as usize,
        }
    }

    /// Are all bytes that the source answers with those of `object`?
    pub open spec fn tells_of(&self, object: Seq<u8>) -> bool {
        match self {
            Source::InMemory(bytes) => buffer_contents(*bytes) == object,
            Source::Lazy(source) => tells_of(**source, object),
        }
    }

    /// The size of the object.
    pub fn len(&self) -> (len: usize)
        ensures
            self.has_len(len),
    {
        match self {
            Source::InMemory(bytes) => buffer_len(bytes),
            Source::Lazy(source) => {
                let size = source.size();
                assert(sized(**source, size));
                size as usize
            },
        }
    }

    /// Has the object no bytes?
    pub fn is_empty(&self) -> (res: bool)
        ensures
            exists|len: usize| #[trigger] self.has_len(len) && res == (len == 0),
    {
        let len = self.len();
        assert(self.has_len(len));
        len == 0
    }

    /// A description of the source.
    pub fn debug_text(&self) -> (text: String)
        ensures
            text@ == (match self {
                Source::InMemory(bytes) => "InMemory("@ + decimal(buffer_contents(*bytes).len())
                    + ")"@,
                Source::Lazy(_) => "Lazy { .. }"@,
            }),
    {
        match self {
            Source::InMemory(bytes) => {
                let mut text = "InMemory(".to_owned();
                push_decimal(&mut text, buffer_len(bytes) as u64);
                text.append(")");
                text
            },
            Source::Lazy(_) => "Lazy { .. }".to_owned(),
        }
    }

    /// Is `res` what the source answers when it is asked for a range without
    /// waiting? In memory, that is every range within the object.
    pub open spec fn answers(&self, range: ByteRange, res: Option<Bytes>) -> bool {
        match self {
            Source::InMemory(object) => match res {
                Some(bytes) => range.end <= buffer_contents(*object).len() && buffer_contents(bytes)
                    == range.of(buffer_contents(*object)),
                None => range.end > buffer_contents(*object).len(),
            },
            Source::Lazy(source) => at_hand(
                **source,
                range.start as u64,
                range.len() as u64,
                res,
            ),
        }
    }

    /// The range, if it can be had without waiting. In memory, that is every
    /// range within the object.
    pub fn try_get_range_sync(&self, range: ByteRange) -> (res: Option<Bytes>)
        requires
            range.start <= range.end,
        ensures
            self.answers(range, res),
    {
        match self {
            Source::InMemory(bytes) => {
                if range.end > buffer_len(bytes) {
                    return None;
                }
                Some(buffer_slice(bytes, range.start, range.end))
            },
            Source::Lazy(source) => source.try_get_range_sync(
                range.start as u64,
                (range.end - range.start) as u64,
            ),
        }
    }

    /// The range: at hand, or to be fetched. Outside an object in memory there
    /// is none.
    pub fn get_range(&self, range: ByteRange) -> (res: Result<RangeStep, LazyByteSourceError>)
        requires
            range.start <= range.end,
        ensures
            match res {
                Ok(RangeStep::Ready(bytes)) => self.answers(range, Some(bytes)),
                Ok(RangeStep::Fetch { start, len }) => self is Lazy && self.answers(range, None)
                    && start == range.start && len == range.len(),
                Err(e) => self is InMemory && self.answers(range, None) && e == outside(
                    range,
                    buffer_contents(self->InMemory_0).len(),
                ),
            },
    {
        if let Some(bytes) = self.try_get_range_sync(range) {
            return Ok(RangeStep::Ready(bytes));
        }
        let start = range.start as u64;
        let len = (range.end - range.start) as u64;
        match self {
            Source::InMemory(bytes) => {
                let size = buffer_len(bytes) as u64;
                Err(LazyByteSourceError::OutOfBounds { start, len, size })
            },
            Source::Lazy(_) => Ok(RangeStep::Fetch { start, len }),
        }
    }
}

/// The error for a range outside an object of `size` bytes in memory.
pub open spec fn outside(range: ByteRange, size: nat) -> LazyByteSourceError {
    out_of_bounds(range.start as u64, range.len() as u64, size as u64)
}

/// A read of several ranges: what is at hand, and what has to be fetched.
pub struct RangesPlan {
    /// The bytes of each range, in the order of the request, if at hand.
    pub slots: Vec<Option<Bytes>>,
    /// What has to be fetched: for which slot, from where, and how much.
    pub pending: Vec<(usize, u64, u64)>,
}

impl RangesPlan {
    /// Each slot is at hand or pending, and the pending ones are listed in
    /// their order, each once.
    pub open spec fn complete(self) -> bool {
        &&& forall|k: int|
            0 <= k < self.pending@.len() ==> {
                let (slot, _, _) = #[trigger] self.pending@[k];
                slot < self.slots@.len() && self.slots@[slot as int] is None
            }
        &&& forall|k: int, m: int|
            0 <= k < m < self.pending@.len() ==> (#[trigger] self.pending@[k]).0 < (
            #[trigger] self.pending@[m]).0
        &&& forall|i: int|
            0 <= i < self.slots@.len() && self.slots@[i] is None ==> #[trigger] self.is_pending(i)
    }

    /// Is slot `i` pending?
    pub open spec fn is_pending(self, i: int) -> bool {
        exists|k: int| 0 <= k < self.pending@.len() && (#[trigger] self.pending@[k]).0 == i
    }

    /// Does the plan belong to `ranges`? What is pending asks for its range.
    pub open spec fn asks(self, ranges: Seq<ByteRange>) -> bool {
        &&& self.complete()
        &&& self.slots@.len() == ranges.len()
        &&& forall|k: int|
            0 <= k < self.pending@.len() ==> {
                let (slot, start, len) = #[trigger] self.pending@[k];
                start == ranges[slot as int].start && len == ranges[slot as int].len()
            }
    }

    /// Is each slot what `source` answers when it is asked for the range?
    pub open spec fn is_answered_by<S: LazyByteSource>(
        self,
        source: Source<S>,
        ranges: Seq<ByteRange>,
    ) -> bool {
        forall|i: int|
            0 <= i < ranges.len() ==> source.answers(#[trigger] ranges[i], self.slots@[i])
    }

    /// Is `out` the plan with `fetched` in the pending slots?
    pub open spec fn filled(self, fetched: Seq<Bytes>, out: Seq<Bytes>) -> bool {
        &&& out.len() == self.slots@.len()
        &&& forall|i: int|
            0 <= i < out.len() ==> (#[trigger] self.slots@[i] matches Some(bytes)
                ==> buffer_contents(out[i]) == buffer_contents(bytes))
        &&& forall|k: int|
            0 <= k < self.pending@.len() ==> {
                let (slot, _, _) = #[trigger] self.pending@[k];
                buffer_contents(out[slot as int]) == buffer_contents(fetched[k])
            }
    }

    /// Puts what was fetched into the pending slots, and returns the bytes of
    /// all ranges in the order of the request.
    pub fn assemble(&self, fetched: &[Bytes]) -> (out: Vec<Bytes>)
        requires
            self.complete(),
            fetched@.len() == self.pending@.len(),
        ensures
            self.filled(fetched@, out@),
    {
        let mut out: Vec<Bytes> = Vec::new();
        let mut k: usize = 0;
        let mut i: usize = 0;
        while i < self.slots.len()
            invariant
                i == out@.len(),
                i <= self.slots@.len(),
                k <= self.pending@.len(),
                self.complete(),
                fetched@.len() == self.pending@.len(),
                forall|j: int|
                    0 <= j < i ==> (#[trigger] self.slots@[j] matches Some(bytes)
                        ==> buffer_contents(out@[j]) == buffer_contents(bytes)),
                forall|m: int|
                    0 <= m < k ==> {
                        let (slot, _, _) = #[trigger] self.pending@[m];
                        slot < i && buffer_contents(out@[slot as int]) == buffer_contents(
                            fetched@[m],
                        )
                    },
                forall|m: int|
                    k <= m < self.pending@.len() ==> (#[trigger] self.pending@[m]).0 >= i,
            decreases self.slots.len() - i,
        {
            match &self.slots[i] {
                Some(bytes) => {
                    out.push(buffer_slice(bytes, 0, buffer_len(bytes)));
                },
                None => {
                    proof {
                        assert(self.is_pending(i as int));
                        let m = choose|m: int|
                            0 <= m < self.pending@.len() && (#[trigger] self.pending@[m]).0 == i;
                        assert(m >= k);
                        assert(self.pending@[k as int].0 >= i);
                    }
                    out.push(buffer_slice(&fetched[k], 0, buffer_len(&fetched[k])));
                    k = k + 1;
                },
            }
            proof {
                assert forall|m: int| k <= m < self.pending@.len() implies (
                #[trigger] self.pending@[m]).0 >= i + 1 by {
                    let slot = self.pending@[m].0;
                    assert(self.slots@[slot as int] is None);
                    if self.slots@[i as int] is None {
                        assert(self.pending@[k - 1].0 == i);
                    }
                }
            }
            i = i + 1;
        }
        proof {
            if k < self.pending@.len() {
                let slot = self.pending@[k as int].0;
                assert(false);
            }
        }
        out
    }
}

/// A read of several ranges gives, in the order of the request, the bytes of
/// each range, if what is fetched for a pending slot are the bytes asked for.
pub proof fn lemma_ranges_come_in_order<S: LazyByteSource>(
    source: Source<S>,
    plan: RangesPlan,
    ranges: Seq<ByteRange>,
    object: Seq<u8>,
    fetched: Seq<Bytes>,
    out: Seq<Bytes>,
)
    requires
        source.tells_of(object),
        forall|i: int| 0 <= i < ranges.len() ==> (#[trigger] ranges[i]).start <= ranges[i].end,
        plan.asks(ranges),
        plan.is_answered_by(source, ranges),
        plan.filled(fetched, out),
        fetched.len() == plan.pending@.len(),
        forall|k: int|
            0 <= k < fetched.len() ==> {
                let (_, start, len) = #[trigger] plan.pending@[k];
                buffer_contents(fetched[k]) == object.subrange(start as int, start + len)
            },
    ensures
        out.len() == ranges.len(),
        forall|i: int|
            0 <= i < ranges.len() ==> buffer_contents(#[trigger] out[i]) == ranges[i].of(object),
{
    assert forall|i: int| 0 <= i < ranges.len() implies buffer_contents(#[trigger] out[i])
        == ranges[i].of(object) by {
        assert(source.answers(ranges[i], plan.slots@[i]));
        if plan.slots@[i] is None {
            assert(plan.is_pending(i));
            let k = choose|k: int|
                0 <= k < plan.pending@.len() && (#[trigger] plan.pending@[k]).0 == i;
            let (_, start, len) = plan.pending@[k];
            assert(start + len == ranges[i].end);
        } else if let Source::Lazy(lazy) = source {
            assert(at_hand(
                *lazy,
                ranges[i].start as u64,
                ranges[i].len() as u64,
                plan.slots@[i],
            ));
        }
    }
}

/// The first range outside an object of `size` bytes.
pub open spec fn first_outside(ranges: Seq<ByteRange>, size: nat) -> Option<ByteRange>
    decreases ranges.len(),
{
    if ranges.len() == 0 {
        None
    } else if ranges[0].end > size {
        Some(ranges[0])
    } else {
        first_outside(ranges.subrange(1, ranges.len() as int), size)
    }
}

impl<S: LazyByteSource> Source<S> {
    /// Plans the read of several ranges: those at hand are served at once,
    /// the others are listed to be fetched, all at a time. Of an object in
    /// memory, the first range outside it is an error.
    pub fn get_ranges_parallel(&self, ranges: &[ByteRange]) -> (res: Result<
        RangesPlan,
        LazyByteSourceError,
    >)
        requires
            forall|i: int|
                0 <= i < ranges@.len() ==> (#[trigger] ranges@[i]).start <= ranges@[i].end,
        ensures
            match self {
                Source::InMemory(bytes) => match first_outside(
                    ranges@,
                    buffer_contents(*bytes).len(),
                ) {
                    Some(range) => res == Err::<RangesPlan, LazyByteSourceError>(
                        outside(range, buffer_contents(*bytes).len()),
                    ),
                    None => res matches Ok(plan) && plan.pending@.len() == 0,
                },
                Source::Lazy(_) => res is Ok,
            },
            res matches Ok(plan) ==> plan.asks(ranges@) && plan.is_answered_by(*self, ranges@),
    {
        let mut plan = RangesPlan { slots: Vec::new(), pending: Vec::new() };
        let ghost size = buffer_contents(self->InMemory_0).len();
        let mut i: usize = 0;
        assert(ranges@.skip(0) =~= ranges@);
        while i < ranges.len()
            invariant
                i <= ranges@.len(),
                size == buffer_contents(self->InMemory_0).len(),
                forall|k: int|
                    0 <= k < ranges@.len() ==> (#[trigger] ranges@[k]).start <= ranges@[k].end,
                plan.asks(ranges@.take(i as int)),
                plan.is_answered_by(*self, ranges@.take(i as int)),
                self is InMemory ==> plan.pending@.len() == 0 && first_outside(ranges@, size)
                    == first_outside(ranges@.skip(i as int), size),
            decreases ranges.len() - i,
        {
            let range = ranges[i];
            let ghost before = plan;
            proof {
                let rest = ranges@.skip(i as int);
                assert(rest[0] == range);
                assert(rest.subrange(1, rest.len() as int) =~= ranges@.skip(i + 1));
            }
            match self.get_range(range) {
                Err(e) => {
                    return Err(e);
                },
                Ok(RangeStep::Ready(bytes)) => {
                    plan.slots.push(Some(bytes));
                },
                Ok(RangeStep::Fetch { start, len }) => {
                    plan.pending.push((i, start, len));
                    plan.slots.push(None);
                    proof {
                        assert(plan.pending@[before.pending@.len() as int].0 == i);
                        assert(plan.is_pending(i as int));
                    }
                },
            }
            proof {
                assert forall|j: int| before.is_pending(j) implies plan.is_pending(j) by {
                    let k = choose|k: int|
                        0 <= k < before.pending@.len() && (#[trigger] before.pending@[k]).0 == j;
                    assert(plan.pending@[k].0 == j);
                }
                assert forall|j: int|
                    0 <= j < i + 1 && plan.slots@[j] is None implies #[trigger] plan.is_pending(
                    j,
                ) by {
                    if j < i {
                        assert(before.slots@[j] is None);
                        assert(before.is_pending(j));
                    }
                }
            }
            i = i + 1;
        }
        assert(ranges@.take(ranges@.len() as int) =~= ranges@);
        Ok(plan)
    }
}

// ---- What a read gives ------------------------------------------------------

/// A range of an object in memory is given exactly if it lies within the object,
/// and is the object's bytes from its start on, as many as were asked for.
pub proof fn lemma_range_in_memory(
    source: BytesLazyByteSource,
    start: u64,
    len: u64,
    res: Result<Bytes, LazyByteSourceError>,
)
    requires
        call_ensures(BytesLazyByteSource::range, (&source, start, len), res),
    ensures
        res is Ok <==> start + len <= source.object().len(),
        res matches Ok(bytes) ==> buffer_contents(bytes) == source.object().subrange(
            start as int,
            start + len,
        ),
        res matches Err(e) ==> e is OutOfBounds,
{
}

/// The tail of an object in memory is its last bytes, as many as were asked for
/// or all that there are, with the size of the object. Only an empty object has
/// none.
pub proof fn lemma_tail_in_memory(
    source: BytesLazyByteSource,
    len: u64,
    res: Result<(Bytes, u64), LazyByteSourceError>,
)
    requires
        call_ensures(BytesLazyByteSource::tail, (&source, len), res),
        source.object().len() <= u64::MAX,
    ensures
        ({
            let size = source.object().len() as int;
            &&& res is Ok <==> size > 0
            &&& res matches Ok((bytes, total)) ==> total == size && buffer_contents(bytes)
                == source.object().skip(
                if len <= size {
                    size - len
                } else {
                    0
                },
            )
        }),
{
    let size = source.object().len() as int;
    if size > 0 {
        let from = if len <= size {
            size - len
        } else {
            0
        };
        assert(source.object().skip(from) =~= source.object().subrange(from, size));
    }
}

/// A range of a section is fetched exactly if it lies within the section, and is
/// then as much further on in the object as the section is.
pub proof fn lemma_range_of_a_section<S: LazyByteSource>(
    source: LazySubSource<S>,
    start: u64,
    len: u64,
    res: Result<RangeStep, LazyByteSourceError>,
)
    requires
        call_ensures(LazySubSource::<S>::range, (&source, start, len), res),
    ensures
        res is Ok <==> start + len <= source.section().1,
        res is Ok ==> res->Ok_0 is Fetch && res->Ok_0->Fetch_start == source.section().0 + start
            && res->Ok_0->Fetch_len == len,
        res is Err ==> res->Err_0 == (LazyByteSourceError::OutOfBounds {
            start,
            len,
            size: source.section().1,
        }),
{
}

/// The first installed range that holds all of a request serves it.
pub proof fn lemma_first_cover_serves(prefetched: Prefetched, start: u64, len: u64, i: int)
    requires
        0 <= i <= prefetched.len(),
        i < prefetched.len() ==> prefetched[i].0 <= start && start + len <= prefetched[i].0
            + prefetched[i].1.len(),
        forall|k: int|
            0 <= k < i ==> !((#[trigger] prefetched[k]).0 <= start && start + len
                <= prefetched[k].0 + prefetched[k].1.len()),
    ensures
        i == prefetched.len() ==> overlay(prefetched, start, len) is None,
        i < prefetched.len() ==> overlay(prefetched, start, len) == Some(
            prefetched[i].1.subrange(start - prefetched[i].0, start - prefetched[i].0 + len),
        ),
    decreases prefetched.len(),
{
    if i > 0 {
        let rest = prefetched.subrange(1, prefetched.len() as int);
        assert(!(prefetched[0].0 <= start && start + len <= prefetched[0].0
            + prefetched[0].1.len()));
        assert forall|k: int| 0 <= k < i - 1 implies !((#[trigger] rest[k]).0 <= start && start
            + len <= rest[k].0 + rest[k].1.len()) by {
            assert(rest[k] == prefetched[k + 1]);
        }
        lemma_first_cover_serves(rest, start, len, i - 1);
    }
}

/// A request is served from the installed ranges exactly if one of them holds
/// all of it; otherwise exactly the request is fetched.
pub proof fn lemma_installed_ranges_serve<S: LazyByteSource>(
    source: PrefetchedSource<S>,
    start: u64,
    len: u64,
    step: RangeStep,
)
    requires
        call_ensures(PrefetchedSource::<S>::range, (&source, start, len), step),
    ensures
        step is Ready <==> exists|i: int|
            0 <= i < source.installed().len() && (#[trigger] source.installed()[i]).0 <= start
                && start + len <= source.installed()[i].0 + source.installed()[i].1.len(),
        step is Fetch ==> step->Fetch_start == start && step->Fetch_len == len,
{
    let installed = source.installed();
    let i = lemma_first_cover(installed, start, len);
    lemma_first_cover_serves(installed, start, len, i);
    if i < installed.len() {
        assert(installed[i].0 <= start);
    }
}

proof fn lemma_first_cover(prefetched: Prefetched, start: u64, len: u64) -> (i: int)
    ensures
        0 <= i <= prefetched.len(),
        i < prefetched.len() ==> prefetched[i].0 <= start && start + len <= prefetched[i].0
            + prefetched[i].1.len(),
        forall|k: int|
            0 <= k < i ==> !((#[trigger] prefetched[k]).0 <= start && start + len
                <= prefetched[k].0 + prefetched[k].1.len()),
    decreases prefetched.len(),
{
    if prefetched.len() == 0 {
        0
    } else {
        let rest = prefetched.drop_last();
        let last = prefetched.len() - 1;
        let i = lemma_first_cover(rest, start, len);
        assert forall|k: int| 0 <= k < i implies !((#[trigger] prefetched[k]).0 <= start && start
            + len <= prefetched[k].0 + prefetched[k].1.len()) by {
            assert(rest[k] == prefetched[k]);
        }
        if i < last {
            assert(rest[i] == prefetched[i]);
            i
        } else if prefetched[last].0 <= start && start + len <= prefetched[last].0
            + prefetched[last].1.len() {
            last
        } else {
            last + 1
        }
    }
}

proof fn lemma_first_outside(ranges: Seq<ByteRange>, size: nat, i: int)
    requires
        0 <= i <= ranges.len(),
        forall|k: int| 0 <= k < i ==> (#[trigger] ranges[k]).end <= size,
        i < ranges.len() ==> ranges[i].end > size,
    ensures
        first_outside(ranges, size) == if i < ranges.len() {
            Some(ranges[i])
        } else {
            None
        },
    decreases ranges.len(),
{
    if i > 0 {
        let rest = ranges.subrange(1, ranges.len() as int);
        assert(ranges[0].end <= size);
        assert forall|k: int| 0 <= k < i - 1 implies (#[trigger] rest[k]).end <= size by {
            assert(rest[k] == ranges[k + 1]);
        }
        lemma_first_outside(rest, size, i - 1);
    }
}

/// Of an object in memory all ranges are given at once, in their order, exactly
/// if each lies within the object; otherwise the first that does not is the
/// error.
pub proof fn lemma_ranges_in_memory<S: LazyByteSource>(
    source: Source<S>,
    ranges: &[ByteRange],
    res: Result<RangesPlan, LazyByteSourceError>,
    i: int,
)
    requires
        call_ensures(Source::<S>::get_ranges_parallel, (&source, ranges), res),
        source is InMemory,
        forall|k: int| 0 <= k < ranges@.len() ==> (#[trigger] ranges@[k]).start <= ranges@[k].end,
        0 <= i <= ranges@.len(),
        forall|k: int|
            0 <= k < i ==> (#[trigger] ranges@[k]).end <= buffer_contents(
                source->InMemory_0,
            ).len(),
        i < ranges@.len() ==> ranges@[i].end > buffer_contents(source->InMemory_0).len(),
    ensures
        res is Ok <==> i == ranges@.len(),
        res is Err ==> res->Err_0 is OutOfBounds && res->Err_0->OutOfBounds_start
            == ranges@[i].start,
        res matches Ok(plan) ==> plan.slots@.len() == ranges@.len() && forall|k: int|
            0 <= k < ranges@.len() ==> (#[trigger] plan.slots@[k]) is Some && buffer_contents(
                plan.slots@[k]->0,
            ) == buffer_contents(source->InMemory_0).subrange(
                ranges@[k].start as int,
                ranges@[k].end as int,
            ),
{
    lemma_first_outside(ranges@, buffer_contents(source->InMemory_0).len(), i);
    if let Ok(plan) = res {
        assert forall|k: int| 0 <= k < ranges@.len() implies (#[trigger] plan.slots@[k]) is Some
            && buffer_contents(plan.slots@[k]->0) == buffer_contents(source->InMemory_0).subrange(
            ranges@[k].start as int,
            ranges@[k].end as int,
        ) by {
            assert(source.answers(ranges@[k], plan.slots@[k]));
        }
    }
}

/// What is at hand of a source is given at once, and all else is fetched as it
/// was asked for; an object in memory gives every range within it.
pub proof fn lemma_range_of_a_source<S: LazyByteSource>(
    source: Source<S>,
    range: ByteRange,
    res: Result<RangeStep, LazyByteSourceError>,
)
    requires
        call_ensures(Source::<S>::get_range, (&source, range), res),
        range.start <= range.end,
    ensures
        source is Lazy ==> res is Ok,
        source is InMemory ==> (res is Ok <==> range.end <= buffer_contents(
            source->InMemory_0,
        ).len()),
        source is InMemory && res is Ok ==> res->Ok_0 is Ready && buffer_contents(
            res->Ok_0->Ready_0,
        ) == buffer_contents(source->InMemory_0).subrange(range.start as int, range.end as int),
        res is Ok && res->Ok_0 is Fetch ==> res->Ok_0->Fetch_start == range.start
            && res->Ok_0->Fetch_len == range.end - range.start,
{
}

/// A source that is not in memory is asked for each range, what it has at hand is
/// taken, and the rest is listed to be fetched, each range as it was asked for.
pub proof fn lemma_ranges_of_a_lazy_source<S: LazyByteSource>(
    source: Source<S>,
    ranges: &[ByteRange],
    res: Result<RangesPlan, LazyByteSourceError>,
    i: int,
)
    requires
        call_ensures(Source::<S>::get_ranges_parallel, (&source, ranges), res),
        source is Lazy,
        forall|k: int| 0 <= k < ranges@.len() ==> (#[trigger] ranges@[k]).start <= ranges@[k].end,
        0 <= i < ranges@.len(),
    ensures
        res is Ok,
        res->Ok_0.slots@.len() == ranges@.len(),
        call_ensures(
            S::try_get_range_sync,
            (
                &*source->Lazy_0,
                ranges@[i].start as u64,
                (ranges@[i].end - ranges@[i].start) as u64,
            ),
            res->Ok_0.slots@[i],
        ),
        res->Ok_0.slots@[i] is None ==> exists|k: int|
            0 <= k < res->Ok_0.pending@.len() && (#[trigger] res->Ok_0.pending@[k]).0 == i
                && res->Ok_0.pending@[k].1 == ranges@[i].start && res->Ok_0.pending@[k].2
                == ranges@[i].end - ranges@[i].start,
        res->Ok_0.slots@[i] is Some ==> forall|k: int|
            0 <= k < res->Ok_0.pending@.len() ==> (#[trigger] res->Ok_0.pending@[k]).0 != i,
{
    let plan = res->Ok_0;
    assert(source.answers(ranges@[i], plan.slots@[i]));
    assert(at_hand(
        *source->Lazy_0,
        ranges@[i].start as u64,
        ranges@[i].len() as u64,
        plan.slots@[i],
    ));
    if plan.slots@[i] is None {
        assert(plan.is_pending(i));
        let k = choose|k: int|
            0 <= k < plan.pending@.len() && (#[trigger] plan.pending@[k]).0 == i;
        let (slot, start, len) = plan.pending@[k];
        assert(start == ranges@[i].start);
    }
}

/// What was fetched goes into the slots that it was fetched for, in their order,
/// and what was at hand stays.
pub proof fn lemma_assembled_ranges(plan: RangesPlan, fetched: &[Bytes], out: Vec<Bytes>, k: int)
    requires
        call_ensures(RangesPlan::assemble, (&plan, fetched), out),
        plan.complete(),
        fetched@.len() == plan.pending@.len(),
        0 <= k < plan.slots@.len(),
    ensures
        out@.len() == plan.slots@.len(),
        plan.slots@[k] is Some ==> buffer_contents(out@[k]) == buffer_contents(plan.slots@[k]->0),
        forall|m: int|
            0 <= m < plan.pending@.len() && (#[trigger] plan.pending@[m]).0 == k
                ==> buffer_contents(out@[k]) == buffer_contents(fetched@[m]),
{
    assert forall|m: int| 0 <= m < plan.pending@.len() && (#[trigger] plan.pending@[m]).0
        == k implies buffer_contents(out@[k]) == buffer_contents(fetched@[m]) by {
        let (slot, start, len) = plan.pending@[m];
        assert(slot == k);
    }
}

} // verus!
