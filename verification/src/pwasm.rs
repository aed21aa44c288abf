//! The word store that the ledger runs on.
//!
//! [`Env`] is what the ledger asks of its host: a store of 32-byte words
//! under 32-byte keys, the account that sent the current call and the height
//! of the current block. [`TestEnv`] keeps all of that in memory.
use crate::word::{word_eq, zero_word};
use vstd::prelude::*;

verus! {

/// A 32-byte key or word of the host store.
pub type H256 = [u8; 32];

/// A 20-byte account identifier.
pub type Address = [u8; 20];

/// The word that `words` holds under `key`: zero where nothing was written.
pub open spec fn word_at(words: Map<Seq<u8>, Seq<u8>>, key: Seq<u8>) -> Seq<u8> {
    if words.contains_key(key) {
        words[key]
    } else {
        zero_word()
    }
}

/// Primitives that give access to the host's store and to the context of the
/// current call.
pub trait Env {
    /// The words written so far, by key.
    spec fn words(&self) -> Map<Seq<u8>, Seq<u8>>;

    /// The account that sent the current call.
    spec fn current_sender(&self) -> Seq<u8>;

    /// The height of the block that the current call runs in.
    spec fn current_block(&self) -> u64;

    /// How many words were written so far.
    spec fn writes(&self) -> nat;

    /// Stores `value` under `key`, replacing what was there.
    fn write(&mut self, key: &H256, value: &[u8; 32])
        ensures
            final(self).words() == old(self).words().insert(key@, value@),
            final(self).writes() == old(self).writes() + 1,
            final(self).current_sender() == old(self).current_sender(),
            final(self).current_block() == old(self).current_block(),
    ;

    /// The word under `key`, which is zero if none was ever stored there.
    fn read(&self, key: &H256) -> (word: [u8; 32])
        ensures
            word@ == word_at(self.words(), key@),
    ;

    /// The account that sent the current call.
    fn sender(&self) -> (account: Address)
        ensures
            account@ == self.current_sender(),
    ;

    /// The height of the block that the current call runs in.
    fn block_number(&self) -> (height: u64)
        ensures
            height == self.current_block(),
    ;
}

/// The map that a list of entries stands for. Where a key occurs more than
/// once, its first entry counts.
pub open spec fn entries_map(entries: Seq<(H256, [u8; 32])>) -> Map<Seq<u8>, Seq<u8>>
    decreases entries.len(),
{
    if entries.len() == 0 {
        Map::empty()
    } else {
        entries_map(entries.drop_first()).insert(entries[0].0@, entries[0].1@)
    }
}

/// Whether no entry before position `end` has the key `key`.
pub open spec fn key_absent(entries: Seq<(H256, [u8; 32])>, key: Seq<u8>, end: int) -> bool {
    forall|j: int| 0 <= j < end && j < entries.len() ==> (#[trigger] entries[j]).0@ != key
}

/// A key that no entry has is not in the map.
proof fn lemma_entries_absent(entries: Seq<(H256, [u8; 32])>, key: Seq<u8>)
    requires
        key_absent(entries, key, entries.len() as int),
    ensures
        !entries_map(entries).contains_key(key),
    decreases entries.len(),
{
    if entries.len() > 0 {
        let rest = entries.drop_first();
        assert(entries[0].0@ != key);
        assert forall|j: int| 0 <= j < rest.len() implies (#[trigger] rest[j]).0@ != key by {
            assert(rest[j] == entries[j + 1]);
        }
        lemma_entries_absent(rest, key);
    }
}

/// The map holds under a key the word of the first entry with that key.
proof fn lemma_entries_first(entries: Seq<(H256, [u8; 32])>, key: Seq<u8>, i: int)
    requires
        0 <= i < entries.len(),
        entries[i].0@ == key,
        key_absent(entries, key, i),
    ensures
        entries_map(entries).contains_key(key),
        entries_map(entries)[key] == entries[i].1@,
    decreases entries.len(),
{
    if i > 0 {
        let rest = entries.drop_first();
        assert(entries[0].0@ != key);
        assert(rest[i - 1] == entries[i]);
        assert forall|j: int| 0 <= j < i - 1 && j < rest.len() implies (#[trigger] rest[j]).0@
            != key by {
            assert(rest[j] == entries[j + 1]);
        }
        lemma_entries_first(rest, key, i - 1);
    }
}

/// An entry appended under a new key is an insertion into the map.
proof fn lemma_entries_push(entries: Seq<(H256, [u8; 32])>, key: H256, value: [u8; 32])
    requires
        key_absent(entries, key@, entries.len() as int),
    ensures
        entries_map(entries.push((key, value))) == entries_map(entries).insert(key@, value@),
    decreases entries.len(),
{
    let pushed = entries.push((key, value));
    if entries.len() == 0 {
        assert(pushed.drop_first() =~= Seq::empty());
        assert(entries_map(pushed.drop_first()) =~= Map::empty());
        assert(entries_map(pushed) =~= entries_map(entries).insert(key@, value@));
    } else {
        let rest = entries.drop_first();
        assert(entries[0].0@ != key@);
        assert forall|j: int| 0 <= j < rest.len() implies (#[trigger] rest[j]).0@ != key@ by {
            assert(rest[j] == entries[j + 1]);
        }
        lemma_entries_push(rest, key, value);
        assert(pushed.drop_first() =~= rest.push((key, value)));
        assert(pushed[0] == entries[0]);
        assert(entries_map(pushed) =~= entries_map(entries).insert(key@, value@));
    }
}

/// A new word in the first entry of a key is an insertion into the map.
proof fn lemma_entries_update(
    entries: Seq<(H256, [u8; 32])>,
    i: int,
    key: H256,
    value: [u8; 32],
)
    requires
        0 <= i < entries.len(),
        entries[i].0@ == key@,
        key_absent(entries, key@, i),
    ensures
        entries_map(entries.update(i, (key, value))) == entries_map(entries).insert(
            key@,
            value@,
        ),
    decreases entries.len(),
{
    let updated = entries.update(i, (key, value));
    let rest = entries.drop_first();
    if i == 0 {
        assert(updated.drop_first() =~= rest);
        assert(entries_map(updated) =~= entries_map(entries).insert(key@, value@));
    } else {
        assert(entries[0].0@ != key@);
        assert(rest[i - 1] == entries[i]);
        assert forall|j: int| 0 <= j < i - 1 && j < rest.len() implies (#[trigger] rest[j]).0@
            != key@ by {
            assert(rest[j] == entries[j + 1]);
        }
        lemma_entries_update(rest, i - 1, key, value);
        assert(updated.drop_first() =~= rest.update(i - 1, (key, value)));
        assert(updated[0] == entries[0]);
        assert(entries_map(updated) =~= entries_map(entries).insert(key@, value@));
    }
}

/// An [`Env`] that lives in memory.
///
/// The store starts out empty. The sender and the block height are fields
/// for the caller to set.
pub struct TestEnv {
    /// The words written so far, each with its key. Where a key occurs more
    /// than once, its first entry counts.
    pub state: Vec<(H256, [u8; 32])>,
    /// The account that sends the calls.
    pub sender: Address,
    /// The height of the block that the calls run in.
    pub block_number: u64,
    /// How many words were written so far.
    pub writes: Ghost<nat>,
}

impl TestEnv {
    /// An environment with an empty store, the zero address as sender and
    /// block height zero.
    pub fn new() -> (env: TestEnv)
        ensures
            env.words() == Map::<Seq<u8>, Seq<u8>>::empty(),
            env.sender@ == Seq::new(20, |i: int| 0u8),
            env.block_number == 0,
            env.writes@ == 0,
    {
        let env = TestEnv {
            state: Vec::new(),
            sender: [0u8; 20],
            block_number: 0,
            writes: Ghost(0),
        };
        proof {
            assert(env.sender@ =~= Seq::new(20, |i: int| 0u8));
        }
        env
    }

    /// The position of the first entry under `key`, if there is one.
    fn position(&self, key: &H256) -> (found: Option<usize>)
        ensures
            match found {
                Some(i) => i < self.state@.len() && self.state@[i as int].0@ == key@ && key_absent(
                    self.state@,
                    key@,
                    i as int,
                ),
                None => key_absent(self.state@, key@, self.state@.len() as int),
            },
    {
        let mut i: usize = 0;
        while i < self.state.len()
            invariant
                i <= self.state@.len(),
                key_absent(self.state@, key@, i as int),
            decreases self.state@.len() - i,
        {
            if word_eq(&self.state[i].0, key) {
                return Some(i);
            }
            i = i + 1;
        }
        None
    }
}

impl Default for TestEnv {
    fn default() -> (env: TestEnv)
        ensures
            env.words() == Map::<Seq<u8>, Seq<u8>>::empty(),
            env.sender@ == Seq::new(20, |i: int| 0u8),
            env.block_number == 0,
            env.writes@ == 0,
    {
        TestEnv::new()
    }
}

impl Env for TestEnv {
    open spec fn words(&self) -> Map<Seq<u8>, Seq<u8>> {
        entries_map(self.state@)
    }

    open spec fn current_sender(&self) -> Seq<u8> {
        self.sender@
    }

    open spec fn current_block(&self) -> u64 {
        self.block_number
    }

    open spec fn writes(&self) -> nat {
        self.writes@
    }

    fn write(&mut self, key: &H256, value: &[u8; 32]) {
        proof {
            self.writes@ = self.writes@ + 1;
        }
        match self.position(key) {
            Some(i) => {
                proof {
                    lemma_entries_update(self.state@, i as int, *key, *value);
                }
                self.state.set(i, (*key, *value));
            },
            None => {
                proof {
                    lemma_entries_push(self.state@, *key, *value);
                }
                self.state.push((*key, *value));
            },
        }
    }

    fn read(&self, key: &H256) -> (word: [u8; 32]) {
        match self.position(key) {
            Some(i) => {
                proof {
                    lemma_entries_first(self.state@, key@, i as int);
                }
                self.state[i].1
            },
            None => {
                proof {
                    lemma_entries_absent(self.state@, key@);
                }
                let word = [0u8; 32];
                proof {
                    assert(word@ =~= zero_word());
                }
                word
            },
        }
    }

    fn sender(&self) -> (account: Address) {
        self.sender
    }

    fn block_number(&self) -> (height: u64) {
        self.block_number
    }
}

} // verus!
