//! Storage settings: a flat list of keys and values, in the configuration
//! keys of the backend.

use vstd::prelude::*;
use vstd::string::StringExecFns;
use crate::storage::{StorageError, StorageFault};
use crate::text::same_text;

verus! {

/// Settings by key, each key once. Without any, the backend finds its own
/// identity.
#[derive(Debug)]
pub struct StorageOptions {
    entries: Vec<(String, String)>,
}

/// Settings over sequences.
pub type OptionPairs = Seq<(Seq<char>, Seq<char>)>;

/// The position of `key`.
pub open spec fn option_index(pairs: OptionPairs, key: Seq<char>) -> Option<int>
    decreases pairs.len(),
{
    if pairs.len() == 0 {
        None
    } else if pairs.last().0 == key {
        Some(pairs.len() - 1)
    } else {
        option_index(pairs.drop_last(), key)
    }
}

/// The settings with `key` set to `value`.
pub open spec fn with_option(pairs: OptionPairs, key: Seq<char>, value: Seq<char>) -> OptionPairs {
    match option_index(pairs, key) {
        Some(i) => pairs.update(i, (key, value)),
        None => pairs.push((key, value)),
    }
}

/// The settings with all of `patch` set, in its order.
pub open spec fn merged(pairs: OptionPairs, patch: OptionPairs) -> OptionPairs
    decreases patch.len(),
{
    if patch.len() == 0 {
        pairs
    } else {
        with_option(merged(pairs, patch.drop_last()), patch.last().0, patch.last().1)
    }
}

/// Is no key there twice?
pub open spec fn keys_differ(pairs: OptionPairs) -> bool {
    forall|i: int, j: int|
        0 <= i < j < pairs.len() ==> (#[trigger] pairs[i]).0 != (#[trigger] pairs[j]).0
}

/// The position found is that of the key.
pub proof fn lemma_option_index(pairs: OptionPairs, key: Seq<char>)
    ensures
        option_index(pairs, key) matches Some(i) ==> 0 <= i < pairs.len() && pairs[i].0 == key,
        option_index(pairs, key) is None ==> forall|i: int|
            0 <= i < pairs.len() ==> (#[trigger] pairs[i]).0 != key,
    decreases pairs.len(),
{
    if pairs.len() > 0 && pairs.last().0 != key {
        lemma_option_index(pairs.drop_last(), key);
        if option_index(pairs, key) is None {
            assert forall|i: int| 0 <= i < pairs.len() implies (#[trigger] pairs[i]).0 != key by {
                if i < pairs.len() - 1 {
                    assert(pairs.drop_last()[i] == pairs[i]);
                }
            }
        }
    }
}

/// Setting a key keeps every key there once.
pub proof fn lemma_with_option_keeps_keys(pairs: OptionPairs, key: Seq<char>, value: Seq<char>)
    requires
        keys_differ(pairs),
    ensures
        keys_differ(with_option(pairs, key, value)),
{
    lemma_option_index(pairs, key);
}

/// After setting a key, it has the value, and no other key's value changed.
pub proof fn lemma_with_option_sets(
    pairs: OptionPairs,
    key: Seq<char>,
    value: Seq<char>,
    other: Seq<char>,
)
    requires
        keys_differ(pairs),
    ensures
        value_of(with_option(pairs, key, value), key) == Some(value),
        other != key ==> value_of(with_option(pairs, key, value), other) == value_of(pairs, other),
{
    let after = with_option(pairs, key, value);
    lemma_with_option_keeps_keys(pairs, key, value);
    lemma_option_index(pairs, key);
    lemma_option_index(pairs, other);
    lemma_option_index(after, key);
    lemma_option_index(after, other);
    let at = match option_index(pairs, key) {
        Some(i) => i,
        None => pairs.len() as int,
    };
    assert(after[at] == (key, value));
    if other != key {
        if let Some(i) = option_index(pairs, other) {
            assert(after[i] == pairs[i]);
        }
        if let Some(i) = option_index(after, other) {
            assert(i != at);
            assert(after[i] == pairs[i]);
        }
    }
}

/// The value of `key`.
pub open spec fn value_of(pairs: OptionPairs, key: Seq<char>) -> Option<Seq<char>> {
    match option_index(pairs, key) {
        Some(i) => Some(pairs[i].1),
        None => None,
    }
}

impl View for StorageOptions {
    type V = OptionPairs;

    closed spec fn view(&self) -> OptionPairs {
        Seq::new(
            self.entries@.len(),
            |i: int| (self.entries@[i].0@, self.entries@[i].1@),
        )
    }
}

impl StorageOptions {
    /// No settings.
    pub fn new() -> (options: Self)
        ensures
            options@ == OptionPairs::empty(),
            keys_differ(options@),
    {
        let options = StorageOptions { entries: Vec::new() };
        assert(options@ =~= OptionPairs::empty());
        options
    }

    /// How many settings there are.
    pub fn len(&self) -> (len: usize)
        ensures
            len == self@.len(),
    {
        self.entries.len()
    }

    /// The setting at position `i`.
    pub fn entry(&self, i: usize) -> (entry: (&str, &str))
        requires
            i < self@.len(),
        ensures
            (entry.0@, entry.1@) == self@[i as int],
    {
        (&self.entries[i].0, &self.entries[i].1)
    }

    /// Where `key` stands.
    fn find(&self, key: &str) -> (res: Option<usize>)
        ensures
            res matches Some(i) ==> option_index(self@, key@) == Some(i as int) && i
                < self@.len(),
            res is None ==> option_index(self@, key@) is None,
    {
        let mut i: usize = self.entries.len();
        assert(self@.take(i as int) =~= self@);
        while i > 0
            invariant
                i <= self@.len(),
                self@.len() == self.entries@.len(),
                option_index(self@, key@) == option_index(self@.take(i as int), key@),
            decreases i,
        {
            assert(self@.take(i as int).drop_last() =~= self@.take(i - 1));
            if same_text(&self.entries[i - 1].0, key) {
                return Some(i - 1);
            }
            i = i - 1;
        }
        None
    }

    /// The value of `key`.
    pub fn get(&self, key: &str) -> (res: Option<&str>)
        ensures
            res is Some <==> value_of(self@, key@) is Some,
            res matches Some(value) ==> value_of(self@, key@) == Some(value@),
    {
        match self.find(key) {
            Some(i) => Some(&self.entries[i].1),
            None => None,
        }
    }

    /// Sets `key` to `value`.
    pub fn insert(&mut self, key: &str, value: &str)
        requires
            keys_differ(old(self)@),
        ensures
            final(self)@ == with_option(old(self)@, key@, value@),
            keys_differ(final(self)@),
    {
        proof {
            lemma_with_option_keeps_keys(self@, key@, value@);
        }
        let entry = (key.to_owned(), value.to_owned());
        match self.find(key) {
            Some(i) => {
                self.entries.set(i, entry);
            },
            None => {
                self.entries.push(entry);
            },
        }
        assert(self@ =~= with_option(old(self)@, key@, value@));
    }

    /// Sets everything in `patch`.
    pub fn extend(&mut self, patch: &StorageOptions)
        requires
            keys_differ(old(self)@),
        ensures
            final(self)@ == merged(old(self)@, patch@),
            keys_differ(final(self)@),
    {
        let mut i: usize = 0;
        while i < patch.len()
            invariant
                i <= patch@.len(),
                keys_differ(self@),
                self@ == merged(old(self)@, patch@.take(i as int)),
            decreases patch@.len() - i,
        {
            let (key, value) = patch.entry(i);
            assert(patch@.take(i + 1).drop_last() =~= patch@.take(i as int));
            self.insert(key, value);
            i = i + 1;
        }
        assert(patch@.take(patch@.len() as int) =~= patch@);
    }

    /// A copy.
    pub fn copy(&self) -> (copy: Self)
        ensures
            copy@ == self@,
    {
        let mut entries: Vec<(String, String)> = Vec::new();
        let mut i: usize = 0;
        while i < self.entries.len()
            invariant
                i <= self.entries@.len(),
                entries@.len() == i,
                forall|k: int|
                    0 <= k < i ==> (#[trigger] entries@[k]).0@ == self.entries@[k].0@
                        && entries@[k].1@ == self.entries@[k].1@,
            decreases self.entries.len() - i,
        {
            entries.push((self.entries[i].0.clone(), self.entries[i].1.clone()));
            i = i + 1;
        }
        let copy = StorageOptions { entries };
        assert(copy@ =~= self@);
        copy
    }
}

// ---- Folding settings onto a builder ---------------------------------------

/// A setting whose key the backend has parsed.
#[derive(Debug)]
pub struct ParsedOption<K> {
    pub key: String,
    pub value: String,
    /// The backend's key, or why it has none.
    pub parsed: Result<K, String>,
}

/// The first setting that the backend does not know.
pub open spec fn first_unknown<K>(opts: Seq<ParsedOption<K>>) -> Option<ParsedOption<K>>
    decreases opts.len(),
{
    if opts.len() == 0 {
        None
    } else if opts[0].parsed is Err {
        Some(opts[0])
    } else {
        first_unknown(opts.subrange(1, opts.len() as int))
    }
}

/// The fault of a setting that the backend does not know.
pub open spec fn unknown_fault<K>(uri: Seq<char>, opt: ParsedOption<K>) -> StorageFault {
    StorageFault::Permanent {
        uri,
        source: "invalid storage option '"@ + opt.key@ + "': "@ + opt.parsed->Err_0@,
    }
}

/// Can `out` come of folding one setting onto `builder`?
pub open spec fn fold_step<K, B, F: Fn(B, K, &str) -> B>(
    fold: F,
    builder: B,
    opt: ParsedOption<K>,
    out: B,
) -> bool {
    exists|value: &str|
        #![trigger value@]
        value@ == opt.value@ && call_ensures(fold, (builder, opt.parsed->Ok_0, value), out)
}

/// Can `out` come of folding the settings onto `builder`, in order?
pub open spec fn folded<K, B, F: Fn(B, K, &str) -> B>(
    fold: F,
    builder: B,
    opts: Seq<ParsedOption<K>>,
    out: B,
) -> bool
    decreases opts.len(),
{
    if opts.len() == 0 {
        out == builder
    } else {
        exists|mid: B| #[trigger]
            fold_step(fold, mid, opts.last(), out) && folded(fold, builder, opts.drop_last(), mid)
    }
}

/// Folds the settings onto `builder`, in order. A setting that the backend
/// does not know is an error, and is never dropped in silence.
pub fn apply<K, B, F: Fn(B, K, &str) -> B>(
    builder: B,
    opts: Vec<ParsedOption<K>>,
    uri: &str,
    fold: F,
) -> (res: Result<B, StorageError>)
    requires
        forall|b: B, k: K, v: &str| call_requires(fold, (b, k, v)),
    ensures
        res is Err <==> first_unknown(opts@) is Some,
        res matches Err(e) ==> e@ == unknown_fault(uri@, first_unknown(opts@)->0),
        res matches Ok(out) ==> folded(fold, builder, opts@, out),
{
    let mut current = builder;
    let ghost all = opts@;
    assert(all.skip(0) =~= all);
    assert(all.take(0) =~= Seq::<ParsedOption<K>>::empty());
    for opt in it: opts
        invariant
            it.seq() == all,
            all == opts@,
            first_unknown(all) == first_unknown(all.skip(it.index() as int)),
            folded(fold, builder, all.take(it.index() as int), current),
            forall|b: B, k: K, v: &str| call_requires(fold, (b, k, v)),
    {
        let ghost i = it.index() as int;
        let ghost rest = all.skip(i);
        proof {
            assert(rest[0] == opt);
            assert(rest.subrange(1, rest.len() as int) =~= all.skip(i + 1));
            assert(all.take(i + 1).drop_last() =~= all.take(i));
            assert(all.take(i + 1).last() == opt);
        }
        match opt.parsed {
            Ok(key) => {
                let ghost mid = current;
                let value: &str = opt.value.as_str();
                current = fold(current, key, value);
                proof {
                    assert(value@ == opt.value@);
                    assert(fold_step(fold, mid, opt, current));
                    assert(folded(fold, builder, all.take(i + 1), current));
                }
            },
            Err(reason) => {
                let mut source = "invalid storage option '".to_owned();
                source.append(&opt.key);
                source.append("': ");
                source.append(&reason);
                return Err(StorageError::Permanent { uri: uri.to_owned(), source });
            },
        }
    }
    assert(all.take(all.len() as int) =~= all);
    Ok(current)
}

// ---- What settings come to --------------------------------------------------

/// A key has the value of its pair, and none if it has no pair.
pub proof fn lemma_value_of_key(options: StorageOptions, key: &str, res: Option<&str>, i: int)
    requires
        call_ensures(StorageOptions::get, (&options, key), res),
        keys_differ(options@),
    ensures
        0 <= i < options@.len() && options@[i].0 == key@ ==> res is Some && res->0@
            == options@[i].1,
        (forall|k: int| 0 <= k < options@.len() ==> (#[trigger] options@[k]).0 != key@) ==> res
            is None,
{
    lemma_option_index(options@, key@);
    if 0 <= i < options@.len() && options@[i].0 == key@ {
        if let Some(k) = option_index(options@, key@) {
            if k < i {
                assert(options@[k].0 != options@[i].0);
            } else if i < k {
                assert(options@[i].0 != options@[k].0);
            }
        }
    }
}

/// After a patch a key has the patch's value if the patch has the key, and
/// otherwise the value that it had.
pub proof fn lemma_patch_wins(pairs: OptionPairs, patch: OptionPairs, key: Seq<char>)
    requires
        keys_differ(pairs),
        keys_differ(patch),
    ensures
        keys_differ(merged(pairs, patch)),
        (forall|k: int| 0 <= k < patch.len() ==> (#[trigger] patch[k]).0 != key) ==> value_of(
            merged(pairs, patch),
            key,
        ) == value_of(pairs, key),
        forall|k: int|
            0 <= k < patch.len() && (#[trigger] patch[k]).0 == key ==> value_of(
                merged(pairs, patch),
                key,
            ) == Some(patch[k].1),
    decreases patch.len(),
{
    if patch.len() > 0 {
        let rest = patch.drop_last();
        let last = patch.len() - 1;
        assert forall|i: int, j: int| 0 <= i < j < rest.len() implies (#[trigger] rest[i]).0 != (
        #[trigger] rest[j]).0 by {
            assert(patch[i].0 != patch[j].0);
        }
        lemma_patch_wins(pairs, rest, key);
        let mid = merged(pairs, rest);
        lemma_with_option_keeps_keys(mid, patch[last].0, patch[last].1);
        lemma_with_option_sets(mid, patch[last].0, patch[last].1, key);
        assert(patch[last] == patch.last());
        assert(forall|k: int| 0 <= k < last ==> #[trigger] rest[k] == patch[k]);
        if forall|k: int| 0 <= k < patch.len() ==> (#[trigger] patch[k]).0 != key {
            assert forall|k: int| 0 <= k < rest.len() implies (#[trigger] rest[k]).0 != key by {
                assert(rest[k] == patch[k]);
            }
        }
        assert forall|k: int| 0 <= k < patch.len() && (#[trigger] patch[k]).0 == key implies
            value_of(merged(pairs, patch), key) == Some(patch[k].1) by {
            if k < last {
                assert(rest[k] == patch[k]);
                assert(patch[k].0 != patch[last].0);
            }
        }
    }
}

proof fn lemma_first_unknown<K>(opts: Seq<ParsedOption<K>>, i: int)
    requires
        0 <= i <= opts.len(),
        forall|j: int| 0 <= j < i ==> (#[trigger] opts[j]).parsed is Ok,
        i < opts.len() ==> opts[i].parsed is Err,
    ensures
        first_unknown(opts) == if i < opts.len() {
            Some(opts[i])
        } else {
            None
        },
    decreases opts.len(),
{
    if i > 0 {
        let rest = opts.subrange(1, opts.len() as int);
        assert(opts[0].parsed is Ok);
        assert forall|j: int| 0 <= j < i - 1 implies (#[trigger] rest[j]).parsed is Ok by {
            assert(rest[j] == opts[j + 1]);
        }
        lemma_first_unknown(rest, i - 1);
    }
}

/// Settings are refused exactly if the backend does not know one of them; the
/// first that it does not know is named in the error, with the reason.
pub proof fn lemma_unknown_settings_are_refused<K, B, F: Fn(B, K, &str) -> B>(
    builder: B,
    opts: Vec<ParsedOption<K>>,
    uri: &str,
    fold: F,
    res: Result<B, StorageError>,
    i: int,
)
    requires
        call_ensures(apply, (builder, opts, uri, fold), res),
        0 <= i <= opts@.len(),
        forall|j: int| 0 <= j < i ==> (#[trigger] opts@[j]).parsed is Ok,
        i < opts@.len() ==> opts@[i].parsed is Err,
    ensures
        res is Ok <==> i == opts@.len(),
        res matches Err(e) ==> e is Permanent && e@ == (StorageFault::Permanent {
            uri: uri@,
            source: "invalid storage option '"@ + opts@[i].key@ + "': "@ + opts@[i].parsed->Err_0@,
        }),
        res matches Ok(out) ==> folded(fold, builder, opts@, out),
{
    lemma_first_unknown(opts@, i);
}

/// Settings are folded one after the other: what comes of one more is one step
/// from what came of those before it, and of none comes the builder.
pub proof fn lemma_settings_fold_in_turn<K, B, F: Fn(B, K, &str) -> B>(
    fold: F,
    builder: B,
    opts: Seq<ParsedOption<K>>,
    opt: ParsedOption<K>,
    out: B,
)
    ensures
        folded(fold, builder, opts.push(opt), out) <==> exists|mid: B| #[trigger]
            fold_step(fold, mid, opt, out) && folded(fold, builder, opts, mid),
        folded(fold, builder, Seq::<ParsedOption<K>>::empty(), out) <==> out == builder,
{
    assert(opts.push(opt).drop_last() =~= opts);
    assert(opts.push(opt).last() == opt);
}

/// A key that is set has the value from then on, and no other key changes.
pub proof fn lemma_set_then_get(
    options: &mut StorageOptions,
    key: &str,
    value: &str,
    after: StorageOptions,
    other: &str,
    res: Option<&str>,
)
    requires
        call_ensures(StorageOptions::insert, (options, key, value), ()),
        keys_differ(old(options)@),
        after == *final(options),
        call_ensures(StorageOptions::get, (&after, other), res),
    ensures
        other@ == key@ ==> res is Some && res->0@ == value@,
        other@ != key@ ==> (res is Some <==> value_of(old(options)@, other@) is Some) && (res
            is Some ==> Some(res->0@) == value_of(old(options)@, other@)),
{
    lemma_with_option_sets(old(options)@, key@, value@, other@);
}

} // verus!
