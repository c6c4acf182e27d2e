//! Walking the vectors of a column chunk by chunk, whether they are in memory
//! or were spilled to a file.
//!
//! A spill file holds the rows one after the other, without header or
//! framing, and [`SPILL_VALUE_BYTES`] bytes for each number.

use std::sync::Arc;
use vstd::prelude::*;
use vstd::slice::slice_subrange;
use vstd::string::StringExecFns;
use crate::text::{decimal, push_decimal};

verus! {

/// How many bytes a number takes in a spill file.
pub const SPILL_VALUE_BYTES: usize = 4;

/// A walk over rows: how many there are, and the one that comes next.
#[verifier::ext_equal]
pub struct WalkView {
    pub n_rows: nat,
    pub dim: nat,
    pub chunk_rows: nat,
    pub cursor: nat,
}

impl WalkView {
    /// The rows of the next chunk, from the first up to one past the last:
    /// as many as a chunk holds, or as are left.
    pub open spec fn next(self) -> Option<(nat, nat)> {
        if self.cursor >= self.n_rows {
            None
        } else if self.n_rows - self.cursor < self.chunk_rows {
            Some((self.cursor, self.n_rows))
        } else {
            Some((self.cursor, self.cursor + self.chunk_rows))
        }
    }

    /// The walk after the next chunk.
    pub open spec fn advanced(self) -> WalkView {
        match self.next() {
            None => self,
            Some((_, end)) => WalkView { cursor: end, ..self },
        }
    }

    /// The walk from the first row on.
    pub open spec fn rewound(self) -> WalkView {
        WalkView { cursor: 0, ..self }
    }

    /// Every chunk makes progress.
    pub open spec fn wf(self) -> bool {
        &&& self.dim > 0
        &&& self.chunk_rows > 0
        &&& self.cursor <= self.n_rows
    }

    /// The numbers of all chunks that are still to come, one after the other.
    pub open spec fn rest<T>(self, rows: Seq<T>) -> Seq<T>
        decreases self.n_rows - self.cursor,
        when self.wf()
    {
        match self.next() {
            None => Seq::empty(),
            Some((start, end)) => rows.subrange(
                (start * self.dim) as int,
                (end * self.dim) as int,
            ) + self.advanced().rest(rows),
        }
    }
}

/// From any row on, the chunks give the rows from there to the last, each
/// once and in their order; after [`ChunkedVectorSource::reset`], all of them.
pub proof fn lemma_chunks_give_every_row<T>(walk: WalkView, rows: Seq<T>)
    requires
        walk.wf(),
        rows.len() == walk.n_rows * walk.dim,
    ensures
        walk.rest(rows) == rows.subrange((walk.cursor * walk.dim) as int, rows.len() as int),
        walk.rewound().rest(rows) == rows,
{
    lemma_rest(walk, rows);
    lemma_rest(walk.rewound(), rows);
    assert(0 * walk.dim == 0) by (nonlinear_arith);
    assert(rows.subrange(0, rows.len() as int) =~= rows);
}

proof fn lemma_rest<T>(walk: WalkView, rows: Seq<T>)
    requires
        walk.wf(),
        rows.len() == walk.n_rows * walk.dim,
    ensures
        walk.rest(rows) == rows.subrange((walk.cursor * walk.dim) as int, rows.len() as int),
    decreases walk.n_rows - walk.cursor,
{
    let dim = walk.dim as int;
    match walk.next() {
        None => {
            assert(walk.cursor == walk.n_rows);
            assert(walk.rest(rows) =~= rows.subrange(
                (walk.cursor * walk.dim) as int,
                rows.len() as int,
            ));
        },
        Some((start, end)) => {
            lemma_rest(walk.advanced(), rows);
            let n = walk.n_rows as int;
            assert(0 <= start * dim <= end * dim <= n * dim) by (nonlinear_arith)
                requires
                    0 <= start <= end <= n,
                    dim > 0,
            ;
            assert(walk.rest(rows) =~= rows.subrange(
                (walk.cursor * walk.dim) as int,
                rows.len() as int,
            ));
        },
    }
}

/// Rows that are walked chunk by chunk.
pub trait ChunkedVectorSource: Sized {
    /// The walk.
    spec fn walk(&self) -> WalkView;

    /// How many rows there are.
    fn n_rows(&self) -> (n: usize)
        requires
            self.walk().wf(),
        ensures
            n == self.walk().n_rows,
    ;

    /// How many numbers a row has.
    fn dim(&self) -> (n: usize)
        ensures
            n == self.walk().dim,
    ;

    /// How many rows a chunk has; the last one may have fewer.
    fn chunk_rows(&self) -> (n: usize)
        ensures
            n == self.walk().chunk_rows,
    ;

    /// Goes on to the first row again.
    fn reset(&mut self)
        requires
            old(self).walk().wf(),
        ensures
            final(self).walk() == old(self).walk().rewound(),
    ;
}

/// The rows of the next chunk, if any are left.
fn next_rows(n_rows: usize, cursor: usize, chunk_rows: usize) -> (next: Option<(usize, usize)>)
    ensures
        ({
            let walk = WalkView {
                n_rows: n_rows as nat,
                dim: 1,
                chunk_rows: chunk_rows as nat,
                cursor: cursor as nat,
            };
            match walk.next() {
                None => next is None,
                Some((from, to)) => next == Some((from as usize, to as usize)) && from
                    <= usize::MAX && to <= usize::MAX,
            }
        }),
{
    if cursor >= n_rows {
        None
    } else if n_rows - cursor < chunk_rows {
        Some((cursor, n_rows))
    } else {
        Some((cursor, cursor + chunk_rows))
    }
}

// ---- In memory --------------------------------------------------------------

/// Rows in memory.
pub struct InMemoryVectorSource<T> {
    buf: Arc<Vec<T>>,
    dim: usize,
    chunk_rows: usize,
    cursor: usize,
}

impl<T> InMemoryVectorSource<T> {
    /// The rows, one after the other.
    pub closed spec fn rows(&self) -> Seq<T> {
        self.buf@
    }

    /// The walk is that over the rows in memory.
    pub closed spec fn wf(&self) -> bool {
        &&& self.walk().wf()
        &&& self.buf@.len() == self.walk().n_rows * self.dim
    }

    /// A walk over rows of `dim` numbers.
    pub fn new(buf: Arc<Vec<T>>, dim: usize, chunk_rows: usize) -> (source: Self)
        requires
            dim > 0,
            chunk_rows > 0,
            buf@.len() % (dim as nat) == 0,
        ensures
            source.wf(),
            source.rows() == buf@,
            source.walk() == (WalkView {
                n_rows: buf@.len() / (dim as nat),
                dim: dim as nat,
                chunk_rows: chunk_rows as nat,
                cursor: 0,
            }),
            buf@.len() == source.walk().n_rows * dim,
    {
        proof {
            vstd::arithmetic::div_mod::lemma_fundamental_div_mod(buf@.len() as int, dim as int);
            assert(dim * (buf@.len() / (dim as nat)) == (buf@.len() / (dim as nat)) * dim)
                by (nonlinear_arith);
        }
        InMemoryVectorSource { buf, dim, chunk_rows, cursor: 0 }
    }

    /// The next chunk, if any rows are left.
    pub fn next_chunk(&mut self) -> (chunk: Option<&[T]>)
        requires
            old(self).wf(),
        ensures
            final(self).wf(),
            final(self).rows() == old(self).rows(),
            final(self).walk() == old(self).walk().advanced(),
            match old(self).walk().next() {
                None => chunk is None,
                Some((from, to)) => chunk matches Some(numbers) && numbers@ == old(
                    self,
                ).rows().subrange(
                    (from * old(self).walk().dim) as int,
                    (to * old(self).walk().dim) as int,
                ),
            },
    {
        let n_rows = self.buf.len() / self.dim;
        match next_rows(n_rows, self.cursor, self.chunk_rows) {
            None => None,
            Some((from, to)) => {
                proof {
                    let dim = self.dim as int;
                    assert(0 <= from * dim <= to * dim <= n_rows * dim) by (nonlinear_arith)
                        requires
                            0 <= from <= to <= n_rows,
                            dim > 0,
                    ;
                    assert(self.buf.len() == self.buf@.len());
                }
                self.cursor = to;
                let numbers = slice_subrange(
                    self.buf.as_slice(),
                    from * self.dim,
                    to * self.dim,
                );
                Some(numbers)
            },
        }
    }
}

impl<T> ChunkedVectorSource for InMemoryVectorSource<T> {
    closed spec fn walk(&self) -> WalkView {
        WalkView {
            n_rows: self.buf@.len() / (self.dim as nat),
            dim: self.dim as nat,
            chunk_rows: self.chunk_rows as nat,
            cursor: self.cursor as nat,
        }
    }

    fn n_rows(&self) -> (n: usize) {
        self.buf.len() / self.dim
    }

    fn dim(&self) -> (n: usize) {
        self.dim
    }

    fn chunk_rows(&self) -> (n: usize) {
        self.chunk_rows
    }

    fn reset(&mut self)
        ensures
            final(self).rows() == old(self).rows(),
            old(self).wf() ==> final(self).wf(),
    {
        self.cursor = 0;
    }
}

// ---- Spilled ----------------------------------------------------------------

/// A spill file that does not hold whole rows.
#[derive(Debug, Clone, Copy, PartialEq, Eq, Structural)]
pub struct MisalignedSpill {
    pub file_len: usize,
    pub dim: usize,
}

impl MisalignedSpill {
    pub open spec fn message_spec(self) -> Seq<char> {
        "spill file length "@ + decimal(self.file_len as nat) + " is not a multiple of row size "@
            + decimal((self.dim * SPILL_VALUE_BYTES) as nat) + " (dim="@ + decimal(self.dim as nat)
            + ")"@
    }

    /// The message for this error.
    pub fn message(&self) -> (text: String)
        requires
            self.dim * SPILL_VALUE_BYTES <= usize::MAX,
        ensures
            text@ == self.message_spec(),
    {
        let mut text = "spill file length ".to_owned();
        push_decimal(&mut text, self.file_len as u64);
        text.append(" is not a multiple of row size ");
        push_decimal(&mut text, (self.dim * SPILL_VALUE_BYTES) as u64);
        text.append(" (dim=");
        push_decimal(&mut text, self.dim as u64);
        text.append(")");
        text
    }
}

/// A walk over the rows of a spill file.
pub struct MmapVectorSource {
    n_rows: usize,
    dim: usize,
    chunk_rows: usize,
    cursor: usize,
}

impl MmapVectorSource {
    /// The rows lie within the file.
    pub closed spec fn wf(&self) -> bool {
        &&& self.walk().wf()
        &&& self.n_rows * (self.dim * SPILL_VALUE_BYTES) <= usize::MAX
    }

    /// A walk over a file of `file_len` bytes, which has to hold whole rows of
    /// `dim` numbers.
    pub fn open(file_len: usize, dim: usize, chunk_rows: usize) -> (res: Result<
        Self,
        MisalignedSpill,
    >)
        requires
            dim > 0,
            chunk_rows > 0,
            dim * SPILL_VALUE_BYTES <= usize::MAX,
        ensures
            res is Ok <==> file_len as int % (dim * SPILL_VALUE_BYTES) == 0,
            res matches Ok(source) ==> source.wf() && source.walk().dim == dim
                && source.walk().chunk_rows == chunk_rows && source.walk().cursor == 0
                && source.walk().n_rows * (dim * SPILL_VALUE_BYTES) == file_len,
            res matches Err(e) ==> e == (MisalignedSpill { file_len, dim }),
    {
        let row_bytes = dim * SPILL_VALUE_BYTES;
        if file_len % row_bytes != 0 {
            return Err(MisalignedSpill { file_len, dim });
        }
        let n_rows = file_len / row_bytes;
        proof {
            vstd::arithmetic::div_mod::lemma_fundamental_div_mod(
                file_len as int,
                row_bytes as int,
            );
            assert(row_bytes * n_rows == n_rows * row_bytes) by (nonlinear_arith);
        }
        Ok(MmapVectorSource { n_rows, dim, chunk_rows, cursor: 0 })
    }

    /// The bytes of the next chunk, from the first up to one past the last, if
    /// any rows are left.
    pub fn next_chunk(&mut self) -> (bytes: Option<(usize, usize)>)
        requires
            old(self).wf(),
        ensures
            final(self).wf(),
            final(self).walk() == old(self).walk().advanced(),
            match old(self).walk().next() {
                None => bytes is None,
                Some((from, to)) => bytes matches Some((start, end)) && start == from * (old(
                    self,
                ).walk().dim * SPILL_VALUE_BYTES) && end == to * (old(self).walk().dim
                    * SPILL_VALUE_BYTES),
            },
    {
        match next_rows(self.n_rows, self.cursor, self.chunk_rows) {
            None => None,
            Some((from, to)) => {
                let ghost row = self.dim * SPILL_VALUE_BYTES;
                proof {
                    let n_rows = self.n_rows as int;
                    assert(0 <= from * row <= to * row <= n_rows * row && row <= n_rows * row)
                        by (nonlinear_arith)
                        requires
                            0 <= from <= to <= n_rows,
                            0 < n_rows,
                            row > 0,
                    ;
                }
                self.cursor = to;
                let row_bytes = self.dim * SPILL_VALUE_BYTES;
                Some((from * row_bytes, to * row_bytes))
            },
        }
    }
}

impl ChunkedVectorSource for MmapVectorSource {
    closed spec fn walk(&self) -> WalkView {
        WalkView {
            n_rows: self.n_rows as nat,
            dim: self.dim as nat,
            chunk_rows: self.chunk_rows as nat,
            cursor: self.cursor as nat,
        }
    }

    fn n_rows(&self) -> (n: usize) {
        self.n_rows
    }

    fn dim(&self) -> (n: usize) {
        self.dim
    }

    fn chunk_rows(&self) -> (n: usize) {
        self.chunk_rows
    }

    fn reset(&mut self)
        ensures
            old(self).wf() ==> final(self).wf(),
    {
        self.cursor = 0;
    }
}

/// A chunk has as many rows as a chunk should have, or those that are left if
/// they are fewer; it begins where the last one ended, and there is one as long
/// as rows are left.
pub proof fn lemma_chunks_are_as_long_as_asked(walk: WalkView)
    requires
        walk.wf(),
    ensures
        walk.next() is Some <==> walk.cursor < walk.n_rows,
        walk.next() matches Some((from, to)) ==> from == walk.cursor && walk.advanced().cursor == to
            && to - from == (if walk.n_rows - walk.cursor < walk.chunk_rows {
            walk.n_rows - walk.cursor
        } else {
            walk.chunk_rows as int
        }),
        walk.advanced().n_rows == walk.n_rows,
        walk.advanced().dim == walk.dim,
        walk.advanced().chunk_rows == walk.chunk_rows,
{
}

/// A chunk of a spill file is its rows' bytes: four for each number of each row.
pub proof fn lemma_spilled_chunk(source: &mut MmapVectorSource, bytes: Option<(usize, usize)>)
    requires
        call_ensures(MmapVectorSource::next_chunk, (source,), bytes),
        old(source).wf(),
        old(source).walk().wf(),
    ensures
        ({
            let (before, after) = (old(source).walk(), final(source).walk());
            &&& bytes is Some <==> before.cursor < before.n_rows
            &&& bytes matches Some((start, end)) ==> start == before.cursor * (4 * before.dim)
                && end == after.cursor * (4 * before.dim)
            &&& bytes is Some ==> after.cursor - before.cursor == (if before.n_rows - before.cursor
                < before.chunk_rows {
                before.n_rows - before.cursor
            } else {
                before.chunk_rows as int
            })
            &&& bytes is None ==> after.cursor == before.cursor
        }),
{
    let before = old(source).walk();
    assert(before.dim * 4 == 4 * before.dim);
}

/// A spill file opens exactly if it holds whole rows, and has then as many rows
/// as it has room for.
pub proof fn lemma_spill_holds_whole_rows(
    file_len: usize,
    dim: usize,
    chunk_rows: usize,
    res: Result<MmapVectorSource, MisalignedSpill>,
)
    requires
        call_ensures(MmapVectorSource::open, (file_len, dim, chunk_rows), res),
        dim > 0,
        chunk_rows > 0,
        dim * 4 <= usize::MAX,
    ensures
        res is Ok <==> file_len as int % (4 * dim) == 0,
        res matches Ok(source) ==> source.walk().n_rows * (4 * dim) == file_len
            && source.walk().cursor == 0 && source.walk().dim == dim && source.walk().chunk_rows
            == chunk_rows,
{
    assert(dim * SPILL_VALUE_BYTES == 4 * dim);
}

} // verus!
