//! Records of any length on top of a store of 32-byte words.
//!
//! A record is a key and a value, both byte strings. The hash of the key
//! names a slot of the word store. That slot holds the length of the value,
//! and the slots that follow it hold the value itself, 32 bytes to a slot,
//! the last one padded with zeros. A record of length zero is no record.
use crate::codec::{decode, encode, encodes, Record};
use crate::hash::{keccak, keccak256};
use crate::pwasm::{word_at, Env};
use crate::word::{
    be_bytes, be_value, lemma_be_value_of_be_bytes, lemma_pow256_32_large,
    lemma_word_add_add, lemma_word_add_distinct, lemma_word_add_zero, length_word, pow256,
    word_add, word_length, word_succ, zero_word,
};
use crate::cbor::{lemma_head_shape, uint_item, MAJOR_UINT};
use vstd::arithmetic::div_mod::lemma_small_mod;
use vstd::prelude::*;
use vstd::slice::slice_subrange;
use vstd::utf8::encode_utf8;

verus! {

/// Number of bytes that one slot of the word store holds.
pub const CHUNK_SIZE: usize = 32;

/// Number of slots that a value of `len` bytes takes, the length slot not
/// counted.
pub open spec fn chunk_count(len: nat) -> nat {
    (len + 31) / 32
}

/// The first 32 bytes of `data`, with zeros where `data` has none.
pub open spec fn padded(data: Seq<u8>) -> Seq<u8> {
    Seq::new(
        32,
        |j: int|
            if j < data.len() {
                data[j]
            } else {
                0u8
            },
    )
}

/// The `i`-th run of 32 bytes of `value`, counted from zero, padded with
/// zeros where `value` ends.
pub open spec fn chunk(value: Seq<u8>, i: nat) -> Seq<u8> {
    Seq::new(
        32,
        |j: int|
            if 32 * i + j < value.len() {
                value[32 * i + j]
            } else {
                0u8
            },
    )
}

/// The slot that holds the length of the record under `key`.
pub open spec fn record_base(key: Seq<u8>) -> Seq<u8> {
    keccak256(key)@
}

/// The store after the length of `value` was written at `base` and its first
/// `n` chunks in the `n` slots after `base`.
pub open spec fn with_chunks(
    words: Map<Seq<u8>, Seq<u8>>,
    base: Seq<u8>,
    value: Seq<u8>,
    n: nat,
) -> Map<Seq<u8>, Seq<u8>>
    decreases n,
{
    if n == 0 {
        words.insert(base, be_bytes(value.len(), 32))
    } else {
        with_chunks(words, base, value, (n - 1) as nat).insert(
            word_add(base, n),
            chunk(value, (n - 1) as nat),
        )
    }
}

/// The store after `value` was written under `key`.
pub open spec fn written(words: Map<Seq<u8>, Seq<u8>>, key: Seq<u8>, value: Seq<u8>) -> Map<
    Seq<u8>,
    Seq<u8>,
> {
    with_chunks(words, record_base(key), value, chunk_count(value.len()))
}

/// The length that the store gives for the record under `key`.
pub open spec fn stored_len(words: Map<Seq<u8>, Seq<u8>>, key: Seq<u8>) -> nat {
    be_value(word_at(words, record_base(key)))
}

/// The `len` bytes that the slots after `base` hold.
pub open spec fn stored_bytes(words: Map<Seq<u8>, Seq<u8>>, base: Seq<u8>, len: nat) -> Seq<u8> {
    Seq::new(len, |p: int| word_at(words, word_add(base, (p / 32 + 1) as nat))[p % 32])
}

/// The value that the store holds under `key`. It is empty where no record
/// was written.
pub open spec fn stored(words: Map<Seq<u8>, Seq<u8>>, key: Seq<u8>) -> Seq<u8> {
    stored_bytes(words, record_base(key), stored_len(words, key))
}

/// What a slot of a written record holds: the length at offset zero, and
/// chunk `i - 1` at offset `i`.
pub proof fn lemma_with_chunks_at(
    words: Map<Seq<u8>, Seq<u8>>,
    base: Seq<u8>,
    value: Seq<u8>,
    n: nat,
    i: nat,
)
    requires
        base.len() == 32,
        n < pow256(32),
        i <= n,
    ensures
        word_at(with_chunks(words, base, value, n), word_add(base, i)) == if i == 0 {
            be_bytes(value.len(), 32)
        } else {
            chunk(value, (i - 1) as nat)
        },
    decreases n,
{
    if n == 0 {
        lemma_word_add_zero(base);
    } else {
        if i < n {
            lemma_word_add_distinct(base, i, n);
            lemma_with_chunks_at(words, base, value, (n - 1) as nat, i);
        }
    }
}

/// A slot that is none of a written record's slots holds what it held before.
pub proof fn lemma_with_chunks_frame(
    words: Map<Seq<u8>, Seq<u8>>,
    base: Seq<u8>,
    value: Seq<u8>,
    n: nat,
    slot: Seq<u8>,
)
    requires
        forall|i: nat| i <= n ==> slot != #[trigger] word_add(base, i),
        slot != base,
    ensures
        word_at(with_chunks(words, base, value, n), slot) == word_at(words, slot),
    decreases n,
{
    if n > 0 {
        assert(slot != word_add(base, n));
        lemma_with_chunks_frame(words, base, value, (n - 1) as nat, slot);
    }
}

/// Reading a key after writing it gives back the value that was written,
/// whatever the store held before.
pub proof fn lemma_read_after_write(words: Map<Seq<u8>, Seq<u8>>, key: Seq<u8>, value: Seq<u8>)
    requires
        value.len() <= usize::MAX,
    ensures
        stored_len(written(words, key, value), key) == value.len(),
        stored(written(words, key, value), key) == value,
{
    let base = record_base(key);
    let len = value.len();
    let n = chunk_count(len);
    let after = written(words, key, value);
    lemma_pow256_32_large();
    lemma_with_chunks_at(words, base, value, n, 0);
    lemma_word_add_zero(base);
    lemma_be_value_of_be_bytes(len, 32);
    lemma_small_mod(len, pow256(32));
    assert(stored_len(after, key) == len);
    assert forall|p: int| 0 <= p < len implies stored_bytes(after, base, len)[p] == value[p] by {
        let c = (p / 32) as nat;
        lemma_with_chunks_at(words, base, value, n, c + 1);
        assert(32 * c + p % 32 == p);
    }
    assert(stored(after, key) =~= value);
}

/// Writing `second` over `first` leaves exactly `second` to be read.
pub proof fn lemma_overwrite(
    words: Map<Seq<u8>, Seq<u8>>,
    key: Seq<u8>,
    first: Seq<u8>,
    second: Seq<u8>,
)
    requires
        second.len() <= usize::MAX,
    ensures
        stored(written(written(words, key, first), key, second), key) == second,
{
    lemma_read_after_write(written(words, key, first), key, second);
}

/// A key whose length slot holds zero has no record. That is so for every
/// key whose slot was never written to.
pub proof fn lemma_absent(words: Map<Seq<u8>, Seq<u8>>, key: Seq<u8>)
    requires
        word_at(words, record_base(key)) == zero_word(),
    ensures
        stored_len(words, key) == 0,
        stored(words, key) == Seq::<u8>::empty(),
{
    let zero = word_at(words, record_base(key));
    lemma_zero_value(zero, 32);
    assert(zero.subrange(0, 32) =~= zero);
    assert(stored(words, key) =~= Seq::<u8>::empty());
}

/// Bytes that are all zero spell zero.
proof fn lemma_zero_value(s: Seq<u8>, n: nat)
    requires
        s.len() >= n,
        forall|i: int| 0 <= i < n ==> s[i] == 0,
    ensures
        be_value(s.subrange(0, n as int)) == 0,
    decreases n,
{
    let t = s.subrange(0, n as int);
    if n > 0 {
        lemma_zero_value(s, (n - 1) as nat);
        assert(t.drop_last() =~= s.subrange(0, n - 1));
    }
}

/// Why reading a record failed.
#[derive(Debug, PartialEq, Eq, Clone, Copy, Structural)]
pub enum StorageError {
    /// The length slot holds a number that no buffer of this machine can
    /// have as its length.
    TooLong,
    /// The bytes of the record are not the encoding of a value of the type
    /// that was asked for.
    Malformed,
}

/// Expands or shrinks a byte slice to fit into a 32 byte array.
///
/// If the slice has fewer than 32 bytes it is padded with zeroes to the
/// right.
pub fn padded_bytes_32(data: &[u8]) -> (word: [u8; 32])
    ensures
        word@ == padded(data@),
{
    let mut word: [u8; 32] = [0u8; 32];
    let mut j: usize = 0;
    while j < 32 && j < data.len()
        invariant
            j <= 32,
            j <= data@.len(),
            word@.len() == 32,
            forall|k: int| 0 <= k < j ==> word@[k] == data@[k],
            forall|k: int| j <= k < 32 ==> word@[k] == 0,
        decreases 32 - j,
    {
        word[j] = data[j];
        j = j + 1;
    }
    proof {
        assert(word@ =~= padded(data@));
    }
    word
}

/// Whether the store holds the value `v` under `key`, where `None` stands
/// for no record at all.
#[verifier::opaque]
pub open spec fn value_is<T: Record>(
    words: Map<Seq<u8>, Seq<u8>>,
    key: Seq<u8>,
    v: Option<T::V>,
) -> bool {
    let len = stored_len(words, key);
    match v {
        None => len == 0,
        Some(w) => 0 < len <= usize::MAX && encodes::<T>(stored(words, key), w),
    }
}

/// Whether reading a value of type `T` under `key` fails with the error `e`:
/// with `TooLong` where the length slot holds a number that no buffer can
/// have as its length, with `Malformed` where the stored bytes are the
/// encoding of no value of `T`.
#[verifier::opaque]
pub open spec fn read_fails<T: Record>(
    words: Map<Seq<u8>, Seq<u8>>,
    key: Seq<u8>,
    e: StorageError,
) -> bool {
    let len = stored_len(words, key);
    match e {
        StorageError::TooLong => len > usize::MAX,
        StorageError::Malformed => 0 < len <= usize::MAX && forall|w: T::V|
            !encodes::<T>(stored(words, key), w),
    }
}

/// A key whose length slot was never written to holds no value, of
/// whatever type.
pub proof fn lemma_absent_value<T: Record>(words: Map<Seq<u8>, Seq<u8>>, key: Seq<u8>)
    requires
        word_at(words, record_base(key)) == zero_word(),
    ensures
        value_is::<T>(words, key, None),
{
    reveal(value_is);
    lemma_absent(words, key);
}

/// What reading a value of type `T` under `key` gives, as a predicate on
/// the result `r`: the value that the store holds there, or the error with
/// which reading it fails.
pub open spec fn read_outcome<T: Record>(
    words: Map<Seq<u8>, Seq<u8>>,
    key: Seq<u8>,
    r: Result<Option<T>, StorageError>,
) -> bool {
    &&& match r {
        Ok(v) => value_is::<T>(words, key, v.deep_view()),
        Err(e) => read_fails::<T>(words, key, e),
    }
    &&& forall|w: Option<T::V>| #[trigger]
        value_is::<T>(words, key, w) ==> (r matches Ok(v) && v.deep_view() == w)
}

/// The value that was written under a key is the value that the store holds
/// there afterwards.
pub proof fn lemma_value_after_write<T: Record>(
    words: Map<Seq<u8>, Seq<u8>>,
    key: Seq<u8>,
    v: T::V,
)
    requires
        T::fits(v),
        0 < T::item(v).len() <= usize::MAX,
    ensures
        value_is::<T>(written(words, key, T::item(v)), key, Some(v)),
{
    reveal(value_is);
    lemma_read_after_write(words, key, T::item(v));
}

/// Simple key-value store for encodable values that is backed by an
/// [`Env`].
pub struct Storage<'a, E: Env> {
    /// The word store underneath.
    pub env: &'a mut E,
}

impl<'a, E: Env> Storage<'a, E> {
    /// The words of the store underneath.
    pub open spec fn words(&self) -> Map<Seq<u8>, Seq<u8>> {
        self.env.words()
    }

    /// A storage on top of `env`.
    pub fn new(env: &'a mut E) -> (storage: Storage<'a, E>)
        ensures
            *storage.env == *old(env),
            *final(storage.env) == *final(env),
    {
        Storage { env }
    }

    /// Reads the value of type `T` that is stored under `key`.
    ///
    /// Gives `Ok(None)` where nothing is stored there, and an error where
    /// what is stored is not the encoding of a value of `T`.
    pub fn read<T: Record>(&self, key: &[u8]) -> (r: Result<Option<T>, StorageError>)
        ensures
            read_outcome::<T>(self.words(), key@, r),
    {
        proof {
            reveal(value_is);
            reveal(read_fails);
        }
        let data = match self.read_bytes(key) {
            Ok(data) => data,
            Err(e) => {
                return Err(e);
            },
        };
        if data.len() == 0 {
            Ok(None)
        } else {
            match decode::<T>(data.as_slice()) {
                Some(value) => Ok(Some(value)),
                None => Err(StorageError::Malformed),
            }
        }
    }

    /// Stores the encoding of `value` under `key`, replacing what was stored
    /// there.
    pub fn write<T: Record>(&mut self, key: &[u8], value: &T)
        ensures
            T::fits(value.deep_view()),
            T::item(value.deep_view()).len() <= usize::MAX,
            final(self).words() == written(old(self).words(), key@, T::item(value.deep_view())),
            T::item(value.deep_view()).len() > 0 ==> value_is::<T>(
                final(self).words(),
                key@,
                Some(value.deep_view()),
            ),
            final(self).env.writes() == old(self).env.writes() + 1 + chunk_count(
                T::item(value.deep_view()).len(),
            ),
            final(self).env.current_sender() == old(self).env.current_sender(),
            final(self).env.current_block() == old(self).env.current_block(),
            *final(final(self).env) == *final(old(self).env),
    {
        let data = encode(value);
        let len = data.len();
        proof {
            if len > 0 {
                lemma_value_after_write::<T>(self.words(), key@, value.deep_view());
            }
        }
        self.write_bytes(key, data.as_slice());
    }

    /// Writes `value` under `key`: its length into the slot that the hash of
    /// `key` names, its chunks into the slots behind that one. Whatever was
    /// stored under `key` before is overwritten.
    pub fn write_bytes(&mut self, key: &[u8], value: &[u8])
        ensures
            final(self).words() == written(old(self).words(), key@, value@),
            stored(final(self).words(), key@) == value@,
            stored_len(final(self).words(), key@) == value@.len() <= usize::MAX,
            final(self).env.writes() == old(self).env.writes() + 1 + chunk_count(value@.len()),
            final(self).env.current_sender() == old(self).env.current_sender(),
            final(self).env.current_block() == old(self).env.current_block(),
            *final(final(self).env) == *final(old(self).env),
    {
        let base = keccak(key);
        let len = value.len();
        let ghost before = self.env.words();
        proof {
            lemma_read_after_write(before, key@, value@);
        }
        self.env.write(&base, &length_word(len));
        let mut slot = base;
        let mut done: usize = 0;
        let mut count: usize = 0;
        proof {
            lemma_word_add_zero(base@);
        }
        while done < len
            invariant
                len == value@.len(),
                base@ == record_base(key@),
                done <= len,
                done == if 32 * count <= len {
                    32 * count
                } else {
                    len as int
                },
                count <= chunk_count(len as nat),
                slot@ == word_add(base@, count as nat),
                self.env.words() == with_chunks(before, base@, value@, count as nat),
                self.env.writes() == old(self).env.writes() + 1 + count,
                self.env.current_sender() == old(self).env.current_sender(),
                self.env.current_block() == old(self).env.current_block(),
                *final(self.env) == *final(old(self).env),
            decreases len - done,
        {
            let end = if len - done > CHUNK_SIZE {
                done + CHUNK_SIZE
            } else {
                len
            };
            let piece = padded_bytes_32(slice_subrange(value, done, end));
            proof {
                assert(piece@ =~= chunk(value@, count as nat));
                lemma_word_add_add(base@, count as nat, 1);
            }
            slot = word_succ(&slot);
            self.env.write(&slot, &piece);
            done = end;
            count = count + 1;
        }
    }

    /// Reads the value under `key`: as many bytes as the length slot says,
    /// from the slots behind it. The result is empty where no record was
    /// written.
    pub fn read_bytes(&self, key: &[u8]) -> (result: Result<Vec<u8>, StorageError>)
        ensures
            match result {
                Ok(data) => stored_len(self.words(), key@) <= usize::MAX && data@ == stored(
                    self.words(),
                    key@,
                ),
                Err(e) => e == StorageError::TooLong && stored_len(self.words(), key@)
                    > usize::MAX,
            },
    {
        let base = keccak(key);
        let len = match word_length(&self.env.read(&base)) {
            Some(len) => len,
            None => {
                return Err(StorageError::TooLong);
            },
        };
        let mut data: Vec<u8> = Vec::new();
        let mut slot = base;
        let mut count: usize = 0;
        proof {
            lemma_word_add_zero(base@);
        }
        while data.len() < len
            invariant
                base@ == record_base(key@),
                len == stored_len(self.env.words(), key@),
                data@.len() <= len,
                data@.len() == if 32 * count <= len {
                    32 * count
                } else {
                    len as int
                },
                slot@ == word_add(base@, count as nat),
                data@ == stored_bytes(self.env.words(), base@, data@.len()),
            decreases len - data@.len(),
        {
            let ghost start = data@;
            proof {
                lemma_word_add_add(base@, count as nat, 1);
            }
            slot = word_succ(&slot);
            let word = self.env.read(&slot);
            let room = len - data.len();
            let take = if room < CHUNK_SIZE {
                room
            } else {
                CHUNK_SIZE
            };
            let mut j: usize = 0;
            while j < take
                invariant
                    j <= take,
                    take <= 32,
                    start.len() + take <= len,
                    data@ == start + word@.subrange(0, j as int),
                decreases take - j,
            {
                data.push(word[j]);
                proof {
                    assert(data@ =~= start + word@.subrange(0, j as int + 1));
                }
                j = j + 1;
            }
            proof {
                let words = self.env.words();
                assert forall|p: int| 0 <= p < data@.len() implies data@[p] == stored_bytes(
                    words,
                    base@,
                    data@.len(),
                )[p] by {
                    if p < start.len() {
                        assert(start[p] == stored_bytes(words, base@, start.len())[p]);
                    } else {
                        assert(p / 32 == count as int);
                        assert(p % 32 == p - start.len());
                    }
                }
                assert(data@ =~= stored_bytes(words, base@, data@.len()));
            }
            count = count + 1;
        }
        Ok(data)
    }
}

/// The key under which the counter is stored.
pub const COUNTER_KEY: &'static str = "counter";

/// The key of the counter, as bytes.
pub open spec fn counter_key() -> Seq<u8> {
    encode_utf8(COUNTER_KEY@)
}

/// The counter after one more increment. It wraps around to zero.
pub open spec fn next_count(n: u32) -> u32 {
    if n == u32::MAX {
        0
    } else {
        (n + 1) as u32
    }
}

/// Whether the counter stands at `n`. Where none is stored it stands at
/// zero.
pub open spec fn counter_is(words: Map<Seq<u8>, Seq<u8>>, n: u32) -> bool {
    value_is::<u32>(words, counter_key(), Some(n)) || (n == 0 && value_is::<u32>(
        words,
        counter_key(),
        None,
    ))
}

/// What reading the counter gives, as a predicate on the result `r`: the
/// number at which the counter stands, or the error with which reading it
/// fails.
pub open spec fn counter_outcome(words: Map<Seq<u8>, Seq<u8>>, r: Result<u32, StorageError>) -> bool {
    &&& match r {
        Ok(n) => counter_is(words, n),
        Err(e) => read_fails::<u32>(words, counter_key(), e),
    }
    &&& forall|n: u32| #[trigger] counter_is(words, n) ==> r == Ok::<u32, StorageError>(n)
}

/// Whether `after` is the store `words` with the counter's next value
/// written to it.
pub open spec fn counted(words: Map<Seq<u8>, Seq<u8>>, after: Map<Seq<u8>, Seq<u8>>) -> bool {
    exists|n: u32| #[trigger]
        counter_is(words, n) && after == written(words, counter_key(), uint_item(next_count(n)))
}

/// Whether `after` is the store `words` with the counter set to what `f`
/// makes of its value.
pub open spec fn recounted<F: FnOnce(u32) -> u32>(
    words: Map<Seq<u8>, Seq<u8>>,
    after: Map<Seq<u8>, Seq<u8>>,
    f: F,
) -> bool {
    exists|n: u32, m: u32|
        counter_is(words, n) && #[trigger] call_ensures(f, (n,), m) && after == written(
            words,
            counter_key(),
            uint_item(m),
        )
}

/// After the counter was set to `n`, it stands at `n`, whatever the store
/// held before.
pub proof fn lemma_counter_after_set(words: Map<Seq<u8>, Seq<u8>>, n: u32)
    ensures
        counter_is(written(words, counter_key(), uint_item(n)), n),
{
    lemma_uint_item_len(n);
    lemma_value_after_write::<u32>(words, counter_key(), n);
}

/// In a store that was never written to, the counter stands at zero.
pub proof fn lemma_counter_starts_at_zero(words: Map<Seq<u8>, Seq<u8>>)
    requires
        words == Map::<Seq<u8>, Seq<u8>>::empty(),
    ensures
        counter_is(words, 0),
{
    reveal(value_is);
    lemma_absent(words, counter_key());
}

/// The item of an unsigned integer has between one and five bytes.
pub proof fn lemma_uint_item_len(n: u32)
    ensures
        0 < uint_item(n).len() <= 5,
{
    lemma_head_shape(MAJOR_UINT, n as u64);
}

/// The counter of a ledger, on top of a [`Storage`].
pub struct CounterStorage<'a, E: Env> {
    /// The storage that holds the counter.
    pub storage: Storage<'a, E>,
}

impl<'a, E: Env> CounterStorage<'a, E> {
    /// The words of the store underneath.
    pub open spec fn words(&self) -> Map<Seq<u8>, Seq<u8>> {
        self.storage.words()
    }

    /// The counter that is kept in `storage`.
    pub fn new(storage: Storage<'a, E>) -> (counter: CounterStorage<'a, E>)
        ensures
            counter.storage == storage,
    {
        CounterStorage { storage }
    }

    /// The number at which the counter stands: zero where none is stored.
    pub fn get(&self) -> (r: Result<u32, StorageError>)
        ensures
            counter_outcome(self.words(), r),
    {
        let read = self.storage.read::<u32>(COUNTER_KEY.as_bytes());
        match read {
            Ok(Some(n)) => Ok(n),
            Ok(None) => Ok(0),
            Err(e) => Err(e),
        }
    }

    /// Sets the counter to `val`.
    pub fn set(&mut self, val: u32)
        ensures
            final(self).words() == written(old(self).words(), counter_key(), uint_item(val)),
            counter_is(final(self).words(), val),
            final(self).storage.env.current_sender() == old(self).storage.env.current_sender(),
            final(self).storage.env.current_block() == old(self).storage.env.current_block(),
            *final(final(self).storage.env) == *final(old(self).storage.env),
    {
        let ghost before = self.words();
        self.storage.write::<u32>(COUNTER_KEY.as_bytes(), &val);
        proof {
            lemma_counter_after_set(before, val);
        }
    }

    /// Sets the counter to what `f` makes of its value. Nothing is written
    /// where the counter cannot be read.
    pub fn update<F: FnOnce(u32) -> u32>(&mut self, f: F) -> (r: Result<(), StorageError>)
        requires
            forall|v: u32| call_requires(f, (v,)),
        ensures
            match r {
                Ok(_) => recounted(old(self).words(), final(self).words(), f),
                Err(e) => read_fails::<u32>(old(self).words(), counter_key(), e)
                    && final(self).words() == old(self).words(),
            },
            forall|n: u32| #[trigger] counter_is(old(self).words(), n) ==> r is Ok,
            final(self).storage.env.current_sender() == old(self).storage.env.current_sender(),
            final(self).storage.env.current_block() == old(self).storage.env.current_block(),
            *final(final(self).storage.env) == *final(old(self).storage.env),
    {
        let val = match self.get() {
            Ok(val) => val,
            Err(e) => {
                return Err(e);
            },
        };
        let next = f(val);
        self.set(next);
        Ok(())
    }
}

} // verus!
