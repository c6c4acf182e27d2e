//! A bounded uniform sample of a stream of vectors.
//!
//! The first vectors fill the reservoir. After that, vectors pass by until
//! the one whose turn it is, which replaces a random row. How many pass by is
//! drawn outside and handed in with [`Reservoir::set_skip`].

use rand::rngs::StdRng;
use rand::{RngExt, SeedableRng};
use vstd::prelude::*;

verus! {

/// The fewest vectors that clusters are trained on by default.
pub const SAMPLE_FLOOR: usize = 100_000;

/// The most vectors that clusters are trained on by default.
pub const SAMPLE_CAP: usize = 500_000;

/// How many vectors per cluster are sampled by default.
pub const SAMPLES_PER_CENTROID: usize = 64;

/// How many vectors `n_cent` clusters are trained on by default: a fixed
/// number for each, within the floor and the cap.
pub open spec fn kmeans_sample_size(n_cent: nat) -> nat {
    let target = SAMPLES_PER_CENTROID as nat * n_cent;
    if target < SAMPLE_FLOOR {
        SAMPLE_FLOOR as nat
    } else if target > SAMPLE_CAP {
        SAMPLE_CAP as nat
    } else {
        target
    }
}

/// How many vectors `n_cent` clusters are trained on by default.
pub fn default_kmeans_sample_size(n_cent: usize) -> (size: usize)
    ensures
        size == kmeans_sample_size(n_cent as nat),
{
    if n_cent > SAMPLE_CAP / SAMPLES_PER_CENTROID {
        SAMPLE_CAP
    } else if n_cent * SAMPLES_PER_CENTROID < SAMPLE_FLOOR {
        SAMPLE_FLOOR
    } else {
        n_cent * SAMPLES_PER_CENTROID
    }
}

/// The generator `rand::rngs::StdRng`, carried as it is.
#[verifier::external_type_specification]
#[verifier::external_body]
pub struct ExStdRng(StdRng);

/// The generator that `SeedableRng::seed_from_u64` makes of a seed.
pub uninterp spec fn seeded_generator(seed: u64) -> StdRng;

/// A generator seeded with `seed`. Calls `SeedableRng::seed_from_u64`, which
/// computes the generator from the seed alone; [`seeded_generator`] names it.
#[verifier::external_body]
fn seeded(seed: u64) -> (rng: StdRng)
    ensures
        rng == seeded_generator(seed),
{
    StdRng::seed_from_u64(seed)
}

/// The number that `RngExt::random_range` draws from `0..n`, and the generator
/// after the draw.
pub uninterp spec fn drawn_below(rng: StdRng, n: usize) -> (usize, StdRng);

/// A random number below `n`. Calls `RngExt::random_range`, which panics on an
/// empty range, and computes the number and the next state from the state of
/// the generator alone; [`drawn_below`] names them.
#[verifier::external_body]
fn draw_below(rng: &mut StdRng, n: usize) -> (drawn: usize)
    requires
        n > 0,
    ensures
        drawn < n,
        (drawn, *final(rng)) == drawn_below(*old(rng), n),
{
    rng.random_range(0..n)
}

/// The sample of vectors, as numbers one row after the other.
pub struct Reservoir<T: Copy> {
    capacity: usize,
    dim: usize,
    rng: StdRng,
    buf: Vec<T>,
    seen: u64,
    /// The vector that replaces a row next, counted from 0.
    next_replace_at: u64,
    /// Has the next replacement still to be set?
    awaits_skip: bool,
}

/// [`Reservoir`] over a sequence.
#[verifier::ext_equal]
pub struct ReservoirView<T> {
    pub capacity: nat,
    pub dim: nat,
    pub rows: Seq<T>,
    pub seen: nat,
    pub next_replace_at: nat,
    pub awaits_skip: bool,
    pub rng: StdRng,
}

/// The start of row `i` in rows of `dim` numbers.
pub open spec fn row_start(i: int, dim: nat) -> int {
    i * dim
}

/// `rows` with row `slot` replaced by `vector`.
pub open spec fn with_row<T>(rows: Seq<T>, slot: int, vector: Seq<T>) -> Seq<T> {
    let start = row_start(slot, vector.len());
    rows.subrange(0, start) + vector + rows.subrange(start + vector.len(), rows.len() as int)
}

impl<T> ReservoirView<T> {
    /// An empty reservoir.
    pub open spec fn fresh(capacity: nat, dim: nat, seed: u64) -> Self {
        ReservoirView {
            capacity,
            dim,
            rows: Seq::empty(),
            seen: 0,
            next_replace_at: u64::MAX as nat,
            awaits_skip: false,
            rng: seeded_generator(seed),
        }
    }

    /// How many rows the reservoir holds: one for each vector seen, up to its
    /// capacity.
    pub open spec fn n_rows(self) -> nat {
        if self.seen < self.capacity {
            self.seen
        } else {
            self.capacity
        }
    }

    /// Row `i`.
    pub open spec fn row(self, i: int) -> Seq<T> {
        self.rows.subrange(row_start(i, self.dim), row_start(i, self.dim) + self.dim)
    }

    /// Does the vector seen next replace a row?
    pub open spec fn replaces(self) -> bool {
        self.seen >= self.capacity && self.seen == self.next_replace_at
    }

    /// The reservoir after it has seen `vector`. While it fills, the vector is
    /// appended. Once it is full, the vector replaces row `slot` if it is its
    /// turn, and passes by if not.
    pub open spec fn observed(self, vector: Seq<T>, slot: int) -> Self {
        let seen = self.seen + 1;
        if self.seen < self.capacity {
            ReservoirView {
                rows: self.rows + vector,
                seen,
                awaits_skip: seen == self.capacity,
                ..self
            }
        } else if self.replaces() {
            ReservoirView {
                rows: with_row(self.rows, slot, vector),
                seen,
                awaits_skip: true,
                ..self
            }
        } else {
            ReservoirView { seen, ..self }
        }
    }

    /// The reservoir after it has seen `vector`, if the row that is replaced is
    /// drawn with its generator.
    pub open spec fn updated(self, vector: Seq<T>) -> Self {
        if self.replaces() {
            let (slot, rng) = drawn_below(self.rng, self.capacity as usize);
            ReservoirView { rng, ..self }.observed(vector, slot as int)
        } else {
            self.observed(vector, 0)
        }
    }

    /// The reservoir after it has seen all of `vectors` while it fills.
    pub open spec fn filled_with(self, vectors: Seq<Seq<T>>) -> Self
        decreases vectors.len(),
    {
        if vectors.len() == 0 {
            self
        } else {
            self.filled_with(vectors.drop_last()).updated(vectors.last())
        }
    }

    /// The rows fill the buffer.
    pub open spec fn wf(self) -> bool {
        &&& self.capacity > 0
        &&& self.dim > 0
        &&& self.rows.len() == row_start(self.n_rows() as int, self.dim)
    }
}

/// The vectors, one after the other.
pub open spec fn in_order<T>(vectors: Seq<Seq<T>>) -> Seq<T>
    decreases vectors.len(),
{
    if vectors.len() == 0 {
        Seq::empty()
    } else {
        in_order(vectors.drop_last()) + vectors.last()
    }
}

/// Up to its capacity, a reservoir holds every vector that it has seen, in
/// their order.
pub proof fn lemma_fill_keeps_order<T>(
    capacity: nat,
    dim: nat,
    seed: u64,
    vectors: Seq<Seq<T>>,
)
    requires
        vectors.len() <= capacity,
    ensures
        ({
            let after = ReservoirView::fresh(capacity, dim, seed).filled_with(vectors);
            after.rows == in_order(vectors) && after.seen == vectors.len() && after.n_rows()
                == vectors.len()
        }),
    decreases vectors.len(),
{
    if vectors.len() > 0 {
        lemma_fill_keeps_order(capacity, dim, seed, vectors.drop_last());
        lemma_fill_keeps_capacity(
            ReservoirView::<T>::fresh(capacity, dim, seed),
            vectors.drop_last(),
        );
    } else {
        assert(in_order(vectors) =~= Seq::<T>::empty());
    }
    lemma_fill_keeps_capacity(ReservoirView::<T>::fresh(capacity, dim, seed), vectors);
}

/// Seeing vectors leaves the capacity as it is.
proof fn lemma_fill_keeps_capacity<T>(start: ReservoirView<T>, vectors: Seq<Seq<T>>)
    ensures
        start.filled_with(vectors).capacity == start.capacity,
    decreases vectors.len(),
{
    if vectors.len() > 0 {
        lemma_fill_keeps_capacity(start, vectors.drop_last());
    }
}

/// A row of the sample is what it was, or the vector just seen; and a vector
/// changes one row at most.
pub proof fn lemma_rows_are_observed<T>(
    before: ReservoirView<T>,
    vector: Seq<T>,
    slot: int,
    i: int,
)
    requires
        before.wf(),
        vector.len() == before.dim,
        0 <= slot < before.capacity,
        0 <= i < before.observed(vector, slot).n_rows(),
    ensures
        before.observed(vector, slot).wf(),
        before.observed(vector, slot).row(i) == before.row(i) || before.observed(vector, slot).row(
            i,
        ) == vector,
        before.seen >= before.capacity && i != slot ==> before.observed(vector, slot).row(i)
            == before.row(i),
{
    let after = before.observed(vector, slot);
    let dim = before.dim as int;
    lemma_observed_wf(before, vector, slot);
    assert((i + 1) * dim == i * dim + dim) by (nonlinear_arith);
    if before.seen < before.capacity {
        let n = before.seen as int;
        assert(n * dim <= i * dim || (i + 1) * dim <= n * dim) by (nonlinear_arith)
            requires
                i <= n,
                dim > 0,
        ;
        if i < n {
            assert((i + 1) * dim <= n * dim) by (nonlinear_arith)
                requires
                    i < n,
                    dim > 0,
            ;
            assert(i * dim >= 0) by (nonlinear_arith)
                requires
                    i >= 0,
                    dim > 0,
            ;
            assert(after.row(i) =~= before.row(i));
        } else {
            assert(after.row(i) =~= vector);
        }
    } else if before.replaces() {
        lemma_with_row(before.rows, before.capacity as int, slot, vector, i);
    }
}

/// Replacing a row leaves the others as they are.
proof fn lemma_with_row<T>(rows: Seq<T>, n: int, slot: int, vector: Seq<T>, i: int)
    requires
        rows.len() == row_start(n, vector.len()),
        vector.len() > 0,
        0 <= slot < n,
        0 <= i < n,
    ensures
        with_row(rows, slot, vector).len() == rows.len(),
        ({
            let dim = vector.len();
            with_row(rows, slot, vector).subrange(row_start(i, dim), row_start(i, dim) + dim) == if i
                == slot {
                vector
            } else {
                rows.subrange(row_start(i, dim), row_start(i, dim) + dim)
            }
        }),
{
    let dim = vector.len() as int;
    assert(0 <= slot * dim && slot * dim + dim <= n * dim) by (nonlinear_arith)
        requires
            0 <= slot < n,
            dim > 0,
    ;
    assert(0 <= i * dim && i * dim + dim <= n * dim) by (nonlinear_arith)
        requires
            0 <= i < n,
            dim > 0,
    ;
    if i < slot {
        assert(i * dim + dim <= slot * dim) by (nonlinear_arith)
            requires
                i < slot,
                dim > 0,
        ;
    } else if i > slot {
        assert(slot * dim + dim <= i * dim) by (nonlinear_arith)
            requires
                slot < i,
                dim > 0,
        ;
    }
    let got = with_row(rows, slot, vector).subrange(i * dim, i * dim + dim);
    if i == slot {
        assert(got =~= vector);
    } else {
        assert(got =~= rows.subrange(i * dim, i * dim + dim));
    }
}

/// Seeing a vector keeps the rows filling the buffer.
proof fn lemma_observed_wf<T>(before: ReservoirView<T>, vector: Seq<T>, slot: int)
    requires
        before.wf(),
        vector.len() == before.dim,
        0 <= slot < before.capacity,
    ensures
        before.observed(vector, slot).wf(),
{
    let dim = before.dim as int;
    let n = before.seen as int;
    assert((n + 1) * dim == n * dim + dim) by (nonlinear_arith);
    if before.replaces() {
        lemma_with_row(before.rows, before.capacity as int, slot, vector, slot);
    }
}

impl<T: Copy> View for Reservoir<T> {
    type V = ReservoirView<T>;

    closed spec fn view(&self) -> ReservoirView<T> {
        ReservoirView {
            capacity: self.capacity as nat,
            dim: self.dim as nat,
            rows: self.buf@,
            seen: self.seen as nat,
            next_replace_at: self.next_replace_at as nat,
            awaits_skip: self.awaits_skip,
            rng: self.rng,
        }
    }
}

impl<T: Copy> Reservoir<T> {
    /// A reservoir for `sample_size` vectors of `dim` numbers.
    pub fn new(sample_size: usize, dim: usize, seed: u64) -> (reservoir: Self)
        requires
            sample_size > 0,
            dim > 0,
        ensures
            reservoir@ == ReservoirView::<T>::fresh(sample_size as nat, dim as nat, seed),
            reservoir@.wf(),
    {
        let reservoir = Reservoir {
            capacity: sample_size,
            dim,
            rng: seeded(seed),
            buf: Vec::new(),
            seen: 0,
            next_replace_at: u64::MAX,
            awaits_skip: false,
        };
        assert(reservoir@ =~= ReservoirView::<T>::fresh(sample_size as nat, dim as nat, seed));
        assert(0 * dim == 0) by (nonlinear_arith);
        reservoir
    }

    /// Shows the reservoir a vector. If it replaces a row, the row is drawn.
    /// Afterwards, if the result is true, how many vectors pass by until the
    /// next replacement has to be set.
    pub fn update(&mut self, vector: &[T]) -> (awaits_skip: bool)
        requires
            old(self)@.wf(),
            !old(self)@.awaits_skip,
            vector@.len() == old(self)@.dim,
            old(self)@.seen < u64::MAX,
        ensures
            final(self)@.wf(),
            awaits_skip == final(self)@.awaits_skip,
            final(self)@ == old(self)@.updated(vector@),
            old(self)@.replaces() ==> drawn_below(
                old(self)@.rng,
                old(self)@.capacity as usize,
            ).0 < old(self)@.capacity,
    {
        let mut slot: usize = 0;
        if self.seen >= self.capacity as u64 && self.seen == self.next_replace_at {
            slot = draw_below(&mut self.rng, self.capacity);
            assert(self@ =~= ReservoirView { rng: self.rng, ..old(self)@ });
        }
        self.update_at(vector, slot)
    }

    /// Shows the reservoir a vector, which replaces row `slot` if it replaces
    /// one.
    pub fn update_at(&mut self, vector: &[T], slot: usize) -> (awaits_skip: bool)
        requires
            old(self)@.wf(),
            !old(self)@.awaits_skip,
            vector@.len() == old(self)@.dim,
            old(self)@.seen < u64::MAX,
            slot < old(self)@.capacity,
        ensures
            final(self)@ == old(self)@.observed(vector@, slot as int),
            final(self)@.wf(),
            awaits_skip == final(self)@.awaits_skip,
    {
        let ghost before = self@;
        proof {
            lemma_observed_wf(before, vector@, slot as int);
        }
        let i = self.seen;
        self.seen = i + 1;
        if i < self.capacity as u64 {
            let mut k: usize = 0;
            while k < vector.len()
                invariant
                    k <= vector@.len(),
                    self.buf@ == before.rows + vector@.take(k as int),
                    self@ == (ReservoirView { rows: self.buf@, seen: before.seen + 1, ..before }),
                decreases vector.len() - k,
            {
                self.buf.push(vector[k]);
                assert(self.buf@ =~= before.rows + vector@.take(k + 1));
                k = k + 1;
            }
            assert(vector@.take(vector@.len() as int) =~= vector@);
            if self.seen == self.capacity as u64 {
                self.awaits_skip = true;
            }
        } else if i == self.next_replace_at {
            self.put_row(vector, slot);
            self.awaits_skip = true;
        }
        assert(self@ =~= before.observed(vector@, slot as int));
        self.awaits_skip
    }

    /// Replaces row `slot` of a full reservoir.
    fn put_row(&mut self, vector: &[T], slot: usize)
        requires
            old(self)@.dim == vector@.len(),
            vector@.len() > 0,
            slot < old(self)@.capacity,
            old(self)@.rows.len() == row_start(old(self)@.capacity as int, vector@.len()),
        ensures
            final(self)@ == (ReservoirView {
                rows: with_row(old(self)@.rows, slot as int, vector@),
                ..old(self)@
            }),
    {
        let ghost before = self@;
        let ghost dim = vector@.len() as int;
        let ghost start = row_start(slot as int, vector@.len());
        assert(0 <= slot * dim && slot * dim + dim <= before.capacity * dim) by (nonlinear_arith)
            requires
                0 <= slot < before.capacity,
                dim > 0,
        ;
        assert(self.buf.len() == self.buf@.len());
        let from = slot * vector.len();
        let mut k: usize = 0;
        while k < vector.len()
            invariant
                k <= vector@.len(),
                from == start,
                start + vector@.len() <= before.rows.len(),
                self.buf@.len() == before.rows.len(),
                forall|p: int|
                    0 <= p < before.rows.len() ==> #[trigger] self.buf@[p] == if start <= p < start
                        + k {
                        vector@[p - start]
                    } else {
                        before.rows[p]
                    },
                self@ == (ReservoirView { rows: self.buf@, ..before }),
            decreases vector.len() - k,
        {
            assert(self.buf.len() == self.buf@.len());
            self.buf.set(from + k, vector[k]);
            k = k + 1;
        }
        assert(self.buf@ =~= with_row(before.rows, slot as int, vector@));
    }

    /// Sets how many vectors pass by until the next one replaces a row.
    pub fn set_skip(&mut self, skip: u64)
        requires
            old(self)@.wf(),
            old(self)@.awaits_skip,
            old(self)@.seen + skip <= u64::MAX,
        ensures
            final(self)@ == (ReservoirView {
                next_replace_at: old(self)@.seen + skip as nat,
                awaits_skip: false,
                ..old(self)@
            }),
            final(self)@.wf(),
    {
        self.next_replace_at = self.seen + skip;
        self.awaits_skip = false;
    }

    /// The generator that rows are drawn with, to draw from it what is handed
    /// in with [`Reservoir::set_skip`].
    pub fn rng(&mut self) -> (rng: &mut StdRng)
        ensures
            *rng == old(self)@.rng,
            final(self)@ == (ReservoirView { rng: *final(rng), ..old(self)@ }),
    {
        &mut self.rng
    }

    /// How many vectors were seen.
    pub fn n_seen(&self) -> (n: u64)
        ensures
            n == self@.seen,
    {
        self.seen
    }

    /// How many vectors the reservoir holds at most.
    pub fn sample_size(&self) -> (n: usize)
        ensures
            n == self@.capacity,
    {
        self.capacity
    }

    /// The rows, one after the other.
    pub fn sample(&self) -> (rows: &[T])
        ensures
            rows@ == self@.rows,
    {
        self.buf.as_slice()
    }

    /// The rows, one after the other, without the reservoir.
    pub fn into_sample(self) -> (rows: Vec<T>)
        ensures
            rows@ == self@.rows,
    {
        self.buf
    }

    /// How many rows the reservoir holds.
    pub fn n_rows(&self) -> (n: usize)
        ensures
            n == self@.n_rows(),
    {
        if self.seen < self.capacity as u64 {
            self.seen as usize
        } else {
            self.capacity
        }
    }
}

/// Clusters are trained on 64 vectors each, but on no fewer than 100 000 and no
/// more than 500 000.
pub proof fn lemma_sample_size(n_cent: usize, size: usize)
    requires
        call_ensures(default_kmeans_sample_size, (n_cent,), size),
    ensures
        100_000 <= size <= 500_000,
        100_000 <= 64 * n_cent <= 500_000 ==> size == 64 * n_cent,
        64 * n_cent < 100_000 ==> size == 100_000,
        64 * n_cent > 500_000 ==> size == 500_000,
{
}

/// Vectors in order are one behind the other.
pub proof fn lemma_in_order_is_flat<T>(vectors: Seq<Seq<T>>)
    ensures
        in_order(vectors) == vectors.flatten(),
    decreases vectors.len(),
{
    vectors.lemma_flatten_and_flatten_alt_are_equivalent();
    if vectors.len() > 0 {
        lemma_in_order_is_flat(vectors.drop_last());
        vectors.drop_last().lemma_flatten_and_flatten_alt_are_equivalent();
    }
}

/// While the reservoir fills, a vector becomes its next row. Once it is full,
/// the vector whose turn it is replaces the given row, and every other passes
/// by. All other rows stay. How many pass by has to be set when it has just
/// become full, and after each replacement.
pub proof fn lemma_what_a_vector_does<T: Copy>(
    reservoir: &mut Reservoir<T>,
    vector: &[T],
    slot: usize,
    awaits: bool,
    i: int,
)
    requires
        call_ensures(Reservoir::<T>::update_at, (reservoir, vector, slot), awaits),
        old(reservoir)@.wf(),
        !old(reservoir)@.awaits_skip,
        vector@.len() == old(reservoir)@.dim,
        slot < old(reservoir)@.capacity,
        0 <= i < old(reservoir)@.capacity,
        i <= old(reservoir)@.seen,
    ensures
        ({
            let (before, after) = (old(reservoir)@, final(reservoir)@);
            let dim = before.dim as int;
            let was = before.rows.subrange(i * dim, i * dim + dim);
            let is = after.rows.subrange(i * dim, i * dim + dim);
            &&& after.seen == before.seen + 1
            &&& after.capacity == before.capacity && after.dim == before.dim
            &&& before.seen < before.capacity ==> after.rows.len() == before.rows.len() + dim && (
            if i == before.seen {
                is == vector@
            } else {
                is == was
            }) && (awaits <==> before.seen + 1 == before.capacity)
            &&& before.seen >= before.capacity && before.seen == before.next_replace_at
                ==> after.rows.len() == before.rows.len() && (if i == slot {
                is == vector@
            } else {
                is == was
            }) && awaits
            &&& before.seen >= before.capacity && before.seen != before.next_replace_at
                ==> after.rows == before.rows && !awaits
        }),
{
    let before = old(reservoir)@;
    let dim = before.dim as int;
    lemma_observed_wf(before, vector@, slot as int);
    if before.seen < before.capacity {
        let n = before.seen as int;
        assert(i * dim >= 0) by (nonlinear_arith)
            requires
                i >= 0,
                dim > 0,
        ;
        assert(n * dim + dim == (n + 1) * dim) by (nonlinear_arith);
        if i < n {
            assert(i * dim + dim <= n * dim) by (nonlinear_arith)
                requires
                    i < n,
                    dim > 0,
            ;
            assert((before.rows + vector@).subrange(i * dim, i * dim + dim)
                =~= before.rows.subrange(i * dim, i * dim + dim));
        } else {
            assert((before.rows + vector@).subrange(i * dim, i * dim + dim) =~= vector@);
        }
    } else if before.seen == before.next_replace_at {
        lemma_with_row(before.rows, before.capacity as int, slot as int, vector@, i);
    }
}

/// A vector that is shown to the reservoir has the effect that it has with the
/// row that the generator draws next.
pub proof fn lemma_drawn_row_is_replaced<T: Copy>(
    reservoir: &mut Reservoir<T>,
    vector: &[T],
    awaits: bool,
)
    requires
        call_ensures(Reservoir::<T>::update, (reservoir, vector), awaits),
        old(reservoir)@.wf(),
        !old(reservoir)@.awaits_skip,
        vector@.len() == old(reservoir)@.dim,
    ensures
        ({
            let (before, after) = (old(reservoir)@, final(reservoir)@);
            let turn = before.seen >= before.capacity && before.seen == before.next_replace_at;
            let (slot, rng) = drawn_below(before.rng, before.capacity as usize);
            &&& turn ==> slot < before.capacity && after.rng == rng && after.rows == before.observed(
                vector@,
                slot as int,
            ).rows && after.seen == before.seen + 1 && awaits
            &&& !turn ==> after.rng == before.rng && after.rows == before.observed(vector@, 0).rows
                && after.seen == before.seen + 1
        }),
{
}

/// The vector that replaces a row next is the one before which as many pass by as
/// was set.
pub proof fn lemma_skipped_vectors_pass_by<T: Copy>(reservoir: &mut Reservoir<T>, skip: u64)
    requires
        call_ensures(Reservoir::<T>::set_skip, (reservoir, skip), ()),
        old(reservoir)@.wf(),
    ensures
        final(reservoir)@.next_replace_at == old(reservoir)@.seen + skip,
        final(reservoir)@.rows == old(reservoir)@.rows,
        final(reservoir)@.seen == old(reservoir)@.seen,
        !final(reservoir)@.awaits_skip,
{
}

/// A reservoir has as many rows as it has seen vectors, up to its capacity.
pub proof fn lemma_rows_of_a_reservoir<T: Copy>(reservoir: Reservoir<T>, n: usize)
    requires
        call_ensures(Reservoir::<T>::n_rows, (&reservoir,), n),
        reservoir@.wf(),
    ensures
        n <= reservoir@.capacity,
        n <= reservoir@.seen,
        n == reservoir@.capacity || n == reservoir@.seen,
        reservoir@.rows.len() == n * reservoir@.dim,
{
}

} // verus!
