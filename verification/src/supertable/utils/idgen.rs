//! Row ids: 64 bits of milliseconds, 40 bits of worker, 24 bits of sequence.
//!
//! The ids themselves are minted outside, with a clock; here is what they are
//! made of, and how a reservation of many is written down.

use vstd::prelude::*;
use vstd::string::StringExecFns;
use crate::numbers::{be_bytes, push_be};
use crate::text::{hex, push_hex};

verus! {

/// How many workers there are: one more than the largest worker.
pub const WORKERS: u64 = 0x100_0000_0000;

/// The bits of a worker, all set.
pub const WORKER_MASK: u64 = 0xFF_FFFF_FFFF;

/// How many ids a worker mints in a millisecond at most.
pub const SEQUENCES: u32 = 0x100_0000;

/// How many ids a millisecond has: those of all workers.
pub const IDS_PER_MILLISECOND: u128 = 0x1_0000_0000_0000_0000;

/// The id that `worker` mints as number `sequence` of a millisecond.
pub open spec fn packed(timestamp: nat, worker: nat, sequence: nat) -> nat {
    timestamp * (IDS_PER_MILLISECOND as nat) + worker * (SEQUENCES as nat) + sequence
}

/// Of two ids the later is the larger, whoever minted them; and two workers
/// never mint the same.
pub proof fn lemma_ids_order(
    timestamp: nat,
    worker: nat,
    sequence: nat,
    later: nat,
    other: nat,
    number: nat,
)
    requires
        worker < WORKERS,
        other < WORKERS,
        sequence < SEQUENCES,
        number < SEQUENCES,
    ensures
        timestamp < later ==> packed(timestamp, worker, sequence) < packed(later, other, number),
        timestamp == later && worker == other && sequence < number ==> packed(
            timestamp,
            worker,
            sequence,
        ) < packed(later, other, number),
        worker != other ==> packed(timestamp, worker, sequence) != packed(later, other, number),
{
}

/// Reading the fields of an id gives back what it was made of.
pub proof fn lemma_id_reads_back(timestamp: nat, worker: nat, sequence: nat)
    requires
        worker < WORKERS,
        sequence < SEQUENCES,
    ensures
        packed(timestamp, worker, sequence) / (IDS_PER_MILLISECOND as nat) == timestamp,
        packed(timestamp, worker, sequence) / (SEQUENCES as nat) % (WORKERS as nat) == worker,
        packed(timestamp, worker, sequence) % (SEQUENCES as nat) == sequence,
{
}

/// When an id was minted, in milliseconds.
pub fn timestamp_of(id: i128) -> (timestamp: u64)
    requires
        id >= 0,
    ensures
        timestamp == id as nat / (IDS_PER_MILLISECOND as nat),
{
    (id as u128 / IDS_PER_MILLISECOND) as u64
}

/// Who minted an id.
pub fn worker_id_of(id: i128) -> (worker: u64)
    requires
        id >= 0,
    ensures
        worker == id as nat / (SEQUENCES as nat) % (WORKERS as nat),
{
    (id as u128 / SEQUENCES as u128 % WORKERS as u128) as u64
}

/// The number of an id within its millisecond.
pub fn sequence_of(id: i128) -> (sequence: u32)
    requires
        id >= 0,
    ensures
        sequence == id as nat % (SEQUENCES as nat),
{
    (id as u128 % SEQUENCES as u128) as u32
}

/// A number of the process's generator. Calls `rand::random`; which one comes
/// is chance.
#[verifier::external_body]
fn random_number() -> (number: u64) {
    rand::random::<u64>()
}

/// Who mints the ids of a table handle.
pub struct IdGenerator {
    worker_id: u64,
}

/// The ids from the first up to the last.
pub open spec fn span_ids(span: (i128, i128)) -> Seq<i128> {
    Seq::new((span.1 - span.0 + 1) as nat, |k: int| (span.0 + k) as i128)
}

/// The ids of all spans, one after the other.
pub open spec fn flattened(spans: Seq<(i128, i128)>) -> Seq<i128>
    decreases spans.len(),
{
    if spans.len() == 0 {
        Seq::empty()
    } else {
        flattened(spans.drop_last()) + span_ids(spans.last())
    }
}

/// Are the spans as long as they can be? None is empty, and none goes on where
/// the one before ends.
pub open spec fn longest_spans(spans: Seq<(i128, i128)>) -> bool {
    &&& forall|i: int| 0 <= i < spans.len() ==> (#[trigger] spans[i]).0 <= spans[i].1
    &&& forall|i: int, j: int|
        0 <= i && j == i + 1 && j < spans.len() ==> (#[trigger] spans[j]).0 != (
        #[trigger] spans[i]).1 + 1
}

/// The last span may grow at its end.
proof fn lemma_longer_last(spans: Seq<(i128, i128)>, first: i128, last: i128, id: i128)
    requires
        longest_spans(spans.push((first, last))),
        last <= id,
    ensures
        longest_spans(spans.push((first, id))),
{
    let was = spans.push((first, last));
    let now = spans.push((first, id));
    assert forall|i: int| 0 <= i < now.len() implies (#[trigger] now[i]).0 <= now[i].1 by {
        assert(was[i].0 <= was[i].1);
    }
    assert forall|i: int, j: int| 0 <= i && j == i + 1 && j < now.len() implies (
    #[trigger] now[j]).0 != (#[trigger] now[i]).1 + 1 by {
        assert(was[j].0 != was[i].1 + 1);
    }
}

/// A span of one id may follow that does not go on where the last one ends.
proof fn lemma_another(spans: Seq<(i128, i128)>, id: i128)
    requires
        longest_spans(spans),
        spans.len() > 0,
        id != spans.last().1 + 1,
    ensures
        longest_spans(spans.push((id, id))),
{
    let now = spans.push((id, id));
    assert forall|i: int| 0 <= i < now.len() implies (#[trigger] now[i]).0 <= now[i].1 by {
        if i < spans.len() {
            assert(spans[i].0 <= spans[i].1);
        }
    }
    assert forall|i: int, j: int| 0 <= i && j == i + 1 && j < now.len() implies (
    #[trigger] now[j]).0 != (#[trigger] now[i]).1 + 1 by {
        if j < spans.len() {
            assert(spans[j].0 != spans[i].1 + 1);
        }
    }
}

/// If the ids were minted in ascending order, the spans of a reservation hold
/// each of them once, ascending.
pub proof fn lemma_reserved_ids_ascend(minted: Seq<i128>, spans: Seq<(i128, i128)>)
    requires
        flattened(spans) == minted,
        forall|i: int, j: int|
            0 <= i < j < minted.len() ==> (#[trigger] minted[i]) < (#[trigger] minted[j]),
    ensures
        flattened(spans).len() == minted.len(),
        flattened(spans).no_duplicates(),
        forall|i: int, j: int|
            0 <= i < j < flattened(spans).len() ==> (#[trigger] flattened(spans)[i]) < (
            #[trigger] flattened(spans)[j]),
{
}

impl IdGenerator {
    /// The worker, who fits in 40 bits.
    #[verifier::type_invariant]
    spec fn fits(self) -> bool {
        self.worker_id < WORKERS
    }

    pub closed spec fn worker(&self) -> u64 {
        self.worker_id
    }

    /// A generator for a worker drawn at random.
    pub fn new() -> (generator: Self)
        ensures
            generator.worker() < WORKERS,
    {
        Self::with_worker_id(random_number())
    }

    /// A generator for the given worker, of whom the low 40 bits count.
    pub fn with_worker_id(worker_id: u64) -> (generator: Self)
        ensures
            generator.worker() == worker_id as nat % (WORKERS as nat),
    {
        IdGenerator { worker_id: worker_id % WORKERS }
    }

    /// The worker.
    pub fn worker_id(&self) -> (worker: u64)
        ensures
            worker == self.worker(),
            worker < WORKERS,
    {
        proof {
            use_type_invariant(self);
        }
        self.worker_id
    }

    /// A description of the generator.
    pub fn debug_text(&self) -> (text: String)
        ensures
            text@ == "IdGenerator { worker_id: 0x"@ + hex(be_bytes(self.worker() as nat, 5))
                + " }"@,
    {
        let mut text = "IdGenerator { worker_id: 0x".to_owned();
        let mut bytes: Vec<u8> = Vec::new();
        push_be(&mut bytes, self.worker_id as u128, 5);
        assert(bytes@ =~= be_bytes(self.worker() as nat, 5));
        push_hex(&mut text, &bytes);
        text.append(" }");
        text
    }

    /// The spans of a reservation: the minted ids, with neighbours drawn
    /// together.
    pub fn reserve_range(minted: &[i128]) -> (spans: Vec<(i128, i128)>)
        ensures
            flattened(spans@) == minted@,
            longest_spans(spans@),
    {
        let mut spans: Vec<(i128, i128)> = Vec::new();
        if minted.len() == 0 {
            assert(minted@ =~= Seq::empty());
            return spans;
        }
        let mut first = minted[0];
        let mut last = minted[0];
        let mut i: usize = 1;
        assert(flattened(spans@) =~= Seq::empty());
        assert(minted@.take(1) =~= flattened(spans@) + span_ids((first, last)));
        while i < minted.len()
            invariant
                1 <= i <= minted@.len(),
                first <= last,
                minted@.take(i as int) == flattened(spans@) + span_ids((first, last)),
                longest_spans(spans@.push((first, last))),
            decreases minted.len() - i,
        {
            let id = minted[i];
            let ghost before = spans@;
            assert(minted@.take(i + 1) =~= minted@.take(i as int).push(id));
            if last < i128::MAX && id == last + 1 {
                assert(span_ids((first, id)) =~= span_ids((first, last)).push(id));
                proof {
                    lemma_longer_last(before, first, last, id);
                }
                last = id;
            } else {
                spans.push((first, last));
                assert(spans@.drop_last() =~= before);
                assert(span_ids((id, id)) =~= seq![id]);
                proof {
                    lemma_another(spans@, id);
                }
                first = id;
                last = id;
            }
            assert(minted@.take(i + 1) =~= flattened(spans@) + span_ids((first, last)));
            i = i + 1;
        }
        let ghost before = spans@;
        spans.push((first, last));
        assert(spans@.drop_last() =~= before);
        assert(minted@.take(minted@.len() as int) =~= minted@);
        spans
    }
}

impl Default for IdGenerator {
    fn default() -> (generator: Self)
        ensures
            generator.worker() < WORKERS,
    {
        Self::new()
    }
}

/// The fields of an id: milliseconds above the low 64 bits, the worker in the 40
/// bits below them, and the sequence in the low 24.
pub proof fn lemma_fields_of_an_id(id: i128, timestamp: u64, worker: u64, sequence: u32)
    requires
        id >= 0,
        call_ensures(timestamp_of, (id,), timestamp),
        call_ensures(worker_id_of, (id,), worker),
        call_ensures(sequence_of, (id,), sequence),
    ensures
        worker < 0x100_0000_0000,
        sequence < 0x100_0000,
        id == timestamp * 0x1_0000_0000_0000_0000 + worker * 0x100_0000 + sequence,
        packed(timestamp as nat, worker as nat, sequence as nat) == id,
{
}

/// A worker is known by its low 40 bits.
pub proof fn lemma_worker_is_its_low_bits(worker_id: u64, generator: IdGenerator)
    requires
        call_ensures(IdGenerator::with_worker_id, (worker_id,), generator),
    ensures
        worker_id < 0x100_0000_0000 ==> generator.worker() == worker_id,
        generator.worker() < 0x100_0000_0000,
        (worker_id - generator.worker()) % 0x100_0000_0000 == 0,
{
}

/// The spans of a reservation hold the minted ids and no others, in their order,
/// each span all ids from its first to its last; and no two of them that follow
/// each other could be one.
pub proof fn lemma_spans_hold_the_minted(minted: &[i128], spans: Vec<(i128, i128)>)
    requires
        call_ensures(IdGenerator::reserve_range, (minted,), spans),
    ensures
        minted@ == spans@.map_values(
            |span: (i128, i128)|
                Seq::new((span.1 - span.0 + 1) as nat, |k: int| (span.0 + k) as i128),
        ).flatten(),
        forall|i: int| 0 <= i < spans@.len() ==> (#[trigger] spans@[i]).0 <= spans@[i].1,
        forall|i: int, j: int|
            0 <= i && j == i + 1 && j < spans@.len() ==> (#[trigger] spans@[j]).0 != (
            #[trigger] spans@[i]).1 + 1,
{
    lemma_flattened(spans@);
}

proof fn lemma_flattened(spans: Seq<(i128, i128)>)
    ensures
        flattened(spans) == spans.map_values(
            |span: (i128, i128)|
                Seq::new((span.1 - span.0 + 1) as nat, |k: int| (span.0 + k) as i128),
        ).flatten(),
    decreases spans.len(),
{
    let lists = spans.map_values(
        |span: (i128, i128)|
            Seq::new((span.1 - span.0 + 1) as nat, |k: int| (span.0 + k) as i128),
    );
    lists.lemma_flatten_and_flatten_alt_are_equivalent();
    if spans.len() > 0 {
        let rest = spans.drop_last();
        let before = rest.map_values(
            |span: (i128, i128)|
                Seq::new((span.1 - span.0 + 1) as nat, |k: int| (span.0 + k) as i128),
        );
        lemma_flattened(rest);
        before.lemma_flatten_and_flatten_alt_are_equivalent();
        assert(lists.drop_last() =~= before);
        assert(lists.last() =~= span_ids(spans.last()));
    }
}

} // verus!
