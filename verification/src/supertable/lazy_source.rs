//! Byte ranges of an object in storage.

use bytes::Bytes;
use vstd::prelude::*;
use crate::storage::StorageError;
use crate::superfile::buffer::{buffer_contents, buffer_len};
use crate::superfile::lazy_source::LazyByteSourceError;

verus! {

/// An object in storage, read range by range. Its size may become known only
/// with the first read of its tail.
#[derive(Debug)]
pub struct StorageRangeSource {
    uri: String,
    /// The size of the object, or 0 while it is not known.
    size: u64,
}

/// What a range request came to: the reply, unless it is an error or holds
/// fewer bytes than were asked for.
pub open spec fn range_reply(
    start: u64,
    len: u64,
    reply: Result<Bytes, StorageError>,
) -> Result<Bytes, LazyByteSourceError> {
    match reply {
        Err(e) => Err(LazyByteSourceError::Storage(e)),
        Ok(bytes) => if buffer_contents(bytes).len() < len {
            Err(
                LazyByteSourceError::ShortRead {
                    start,
                    requested: len,
                    got: buffer_contents(bytes).len() as u64,
                },
            )
        } else {
            Ok(bytes)
        },
    }
}

impl StorageRangeSource {
    pub closed spec fn object_uri(&self) -> Seq<char> {
        self.uri@
    }

    /// The size of the object, or 0 while it is not known.
    pub closed spec fn known_size(&self) -> u64 {
        self.size
    }

    /// A source for the object, from the reply to a request for its size.
    pub fn new(uri: String, head: Result<u64, StorageError>) -> (res: Result<Self, StorageError>)
        ensures
            match head {
                Ok(size) => res matches Ok(source) && source.object_uri() == uri@
                    && source.known_size() == size,
                Err(e) => res == Err::<Self, StorageError>(e),
            },
    {
        let size = head?;
        Ok(StorageRangeSource { uri, size })
    }

    /// A source for an object of the given size.
    pub fn with_known_size(uri: String, size: u64) -> (source: Self)
        ensures
            source.object_uri() == uri@,
            source.known_size() == size,
    {
        StorageRangeSource { uri, size }
    }

    /// A source for an object whose size becomes known with its tail.
    pub fn with_unknown_size(uri: String) -> (source: Self)
        ensures
            source.object_uri() == uri@,
            source.known_size() == 0,
    {
        StorageRangeSource { uri, size: 0 }
    }

    /// The URI of the object.
    pub fn uri(&self) -> (uri: &str)
        ensures
            uri@ == self.object_uri(),
    {
        self.uri.as_str()
    }

    /// The size of the object, or 0 while it is not known.
    pub fn size(&self) -> (size: u64)
        ensures
            size == self.known_size(),
    {
        self.size
    }

    /// The end of the range to request from `start` on. While the size is not
    /// known, storage decides whether the range lies within the object.
    pub fn range_end(&self, start: u64, len: u64) -> (res: Result<u64, LazyByteSourceError>)
        requires
            self.known_size() == 0 ==> start + len <= u64::MAX,
        ensures
            res is Err <==> self.known_size() > 0 && start + len > self.known_size(),
            res matches Ok(end) ==> end == start + len,
            res matches Err(e) ==> e == (LazyByteSourceError::OutOfBounds {
                start,
                len,
                size: self.known_size(),
            }),
    {
        if self.size > 0 && (start > self.size || len > self.size - start) {
            return Err(LazyByteSourceError::OutOfBounds { start, len, size: self.size });
        }
        Ok(start + len)
    }

    /// The outcome of a range request, from the reply of storage. Fewer bytes
    /// than were asked for are an error.
    pub fn range(start: u64, len: u64, reply: Result<Bytes, StorageError>) -> (res: Result<
        Bytes,
        LazyByteSourceError,
    >)
        ensures
            res == range_reply(start, len, reply),
    {
        match reply {
            Err(e) => Err(LazyByteSourceError::Storage(e)),
            Ok(bytes) => {
                let got = buffer_len(&bytes) as u64;
                if got < len {
                    return Err(LazyByteSourceError::ShortRead { start, requested: len, got });
                }
                Ok(bytes)
            },
        }
    }

    /// The outcome of a request for the tail, from the reply of storage: the
    /// bytes and the size of the object, which is known from now on.
    pub fn tail(&mut self, reply: Result<(Bytes, u64), StorageError>) -> (res: Result<
        (Bytes, u64),
        LazyByteSourceError,
    >)
        ensures
            final(self).object_uri() == old(self).object_uri(),
            match reply {
                Ok((bytes, total)) => res == Ok::<(Bytes, u64), LazyByteSourceError>((bytes, total))
                    && final(self).known_size() == total,
                Err(e) => res == Err::<(Bytes, u64), LazyByteSourceError>(
                    LazyByteSourceError::Storage(e),
                ) && final(self).known_size() == old(self).known_size(),
            },
    {
        match reply {
            Ok((bytes, total)) => {
                self.size = total;
                Ok((bytes, total))
            },
            Err(e) => Err(LazyByteSourceError::Storage(e)),
        }
    }
}

/// A range is what storage sent, if it sent at least what was asked for; fewer
/// bytes and failures are errors.
pub proof fn lemma_no_short_range(
    start: u64,
    len: u64,
    reply: Result<Bytes, StorageError>,
    res: Result<Bytes, LazyByteSourceError>,
)
    requires
        call_ensures(StorageRangeSource::range, (start, len, reply), res),
    ensures
        res is Ok <==> reply is Ok && buffer_contents(reply->Ok_0).len() >= len,
        res matches Ok(bytes) ==> buffer_contents(bytes) == buffer_contents(reply->Ok_0),
        reply matches Err(e) ==> res == Err::<Bytes, LazyByteSourceError>(
            LazyByteSourceError::Storage(e),
        ),
        reply is Ok && res is Err ==> res->Err_0 is ShortRead && res->Err_0->ShortRead_start
            == start && res->Err_0->ShortRead_requested == len,
{
}

/// The size of an object is known from the first read of its tail on, and then no
/// range beyond it is asked for; until then storage decides.
pub proof fn lemma_size_becomes_known(
    source: &mut StorageRangeSource,
    bytes: Bytes,
    total: u64,
    res: Result<(Bytes, u64), LazyByteSourceError>,
    after: StorageRangeSource,
    start: u64,
    len: u64,
    end: Result<u64, LazyByteSourceError>,
)
    requires
        call_ensures(
            StorageRangeSource::tail,
            (source, Ok::<(Bytes, u64), StorageError>((bytes, total))),
            res,
        ),
        after == *final(source),
        total > 0,
        call_ensures(StorageRangeSource::range_end, (&after, start, len), end),
    ensures
        res == Ok::<(Bytes, u64), LazyByteSourceError>((bytes, total)),
        end is Ok <==> start + len <= total,
        end matches Ok(to) ==> to == start + len,
        end matches Err(e) ==> e == (LazyByteSourceError::OutOfBounds { start, len, size: total }),
{
}

} // verus!
