use oscoin_ledger::pwasm::{Env, TestEnv};
use oscoin_ledger::storage::{padded_bytes_32, Storage, StorageError};
use oscoin_ledger::word::{length_word, word_eq, word_length, word_succ};

fn pattern(len: usize) -> Vec<u8> {
    (0..len).map(|i| (i * 7 + 3) as u8).collect()
}

fn round_trip(len: usize) {
    let mut env = TestEnv::new();
    let mut storage = Storage::new(&mut env);
    let value = pattern(len);
    storage.write_bytes(b"key", &value);
    assert_eq!(storage.read_bytes(b"key"), Ok(value));
}

#[test]
fn doc_example_write_then_read() {
    let mut test_env = TestEnv::new();
    let mut storage = Storage::new(&mut test_env);
    let vec = Vec::from(b"abcdef" as &[u8]);
    storage.write_bytes(b"key", &vec);
    assert_eq!(Ok(vec), storage.read_bytes(b"key"));
}

#[test]
fn round_trip_of_length_0() {
    round_trip(0);
}

#[test]
fn round_trip_of_length_1() {
    round_trip(1);
}

#[test]
fn round_trip_of_length_31() {
    round_trip(31);
}

#[test]
fn round_trip_of_length_32() {
    round_trip(32);
}

#[test]
fn round_trip_of_length_33() {
    round_trip(33);
}

#[test]
fn round_trip_of_length_64() {
    round_trip(64);
}

#[test]
fn round_trip_of_length_96() {
    round_trip(96);
}

#[test]
fn round_trip_of_a_large_value() {
    round_trip(10_000);
}

#[test]
fn round_trip_with_other_keys() {
    let mut env = TestEnv::new();
    let mut storage = Storage::new(&mut env);
    storage.write_bytes(b"", &pattern(5));
    storage.write_bytes(b"a", &pattern(40));
    storage.write_bytes(&pattern(100), &pattern(70));
    assert_eq!(storage.read_bytes(b""), Ok(pattern(5)));
    assert_eq!(storage.read_bytes(b"a"), Ok(pattern(40)));
    assert_eq!(storage.read_bytes(&pattern(100)), Ok(pattern(70)));
}

#[test]
fn a_key_never_written_is_absent() {
    let mut env = TestEnv::new();
    let storage = Storage::new(&mut env);
    assert_eq!(storage.read_bytes(b"nothing here"), Ok(Vec::new()));
    let typed: Result<Option<u32>, StorageError> = storage.read(b"nothing here");
    assert_eq!(typed, Ok(None));
}

#[test]
fn a_value_of_length_zero_is_absent() {
    let mut env = TestEnv::new();
    let mut storage = Storage::new(&mut env);
    storage.write_bytes(b"key", &pattern(50));
    storage.write_bytes(b"key", &[]);
    assert_eq!(storage.read_bytes(b"key"), Ok(Vec::new()));
    let typed: Result<Option<String>, StorageError> = storage.read(b"key");
    assert_eq!(typed, Ok(None));
}

#[test]
fn overwrite_with_a_shorter_value() {
    let mut env = TestEnv::new();
    let mut storage = Storage::new(&mut env);
    storage.write_bytes(b"key", &pattern(100));
    storage.write_bytes(b"key", &[1, 2, 3]);
    assert_eq!(storage.read_bytes(b"key"), Ok(vec![1, 2, 3]));
}

#[test]
fn overwrite_with_a_longer_value() {
    let mut env = TestEnv::new();
    let mut storage = Storage::new(&mut env);
    storage.write_bytes(b"key", &[1, 2, 3]);
    storage.write_bytes(b"key", &pattern(100));
    assert_eq!(storage.read_bytes(b"key"), Ok(pattern(100)));
}

#[test]
fn layout_is_length_word_and_padded_chunks_behind_the_hash() {
    let mut env = TestEnv::new();
    let value = pattern(33);
    Storage::new(&mut env).write_bytes(b"key", &value);

    let base = tiny_keccak::keccak256(b"key");
    assert_ne!(&base[..3], b"key");
    let mut length = [0u8; 32];
    length[31] = 33;
    assert_eq!(env.read(&base), length);

    let first = (ethereum_types::U256::from(base) + 1u64).into();
    let second = (ethereum_types::U256::from(base) + 2u64).into();
    let third = (ethereum_types::U256::from(base) + 3u64).into();
    let mut chunk = [0u8; 32];
    chunk.copy_from_slice(&value[0..32]);
    assert_eq!(env.read(&first), chunk);
    let mut last = [0u8; 32];
    last[0] = value[32];
    assert_eq!(env.read(&second), last);
    assert_eq!(env.read(&third), [0u8; 32]);
    // One length word and two chunks were written.
    assert_eq!(env.state.len(), 3);
}

#[test]
fn number_of_words_written_is_one_plus_the_number_of_chunks() {
    for (len, words) in [(0usize, 1usize), (1, 2), (32, 2), (33, 3), (64, 3), (65, 4)] {
        let mut env = TestEnv::new();
        Storage::new(&mut env).write_bytes(b"k", &pattern(len));
        assert_eq!(env.state.len(), words);
    }
}

#[test]
fn a_length_word_too_large_fails() {
    let mut env = TestEnv::new();
    let base = tiny_keccak::keccak256(b"key");
    env.write(&base, &[0xff; 32]);
    let storage = Storage::new(&mut env);
    assert_eq!(storage.read_bytes(b"key"), Err(StorageError::TooLong));
    let typed: Result<Option<u32>, StorageError> = storage.read(b"key");
    assert_eq!(typed, Err(StorageError::TooLong));
}

#[test]
fn typed_round_trip() {
    let mut env = TestEnv::new();
    let mut storage = Storage::new(&mut env);
    storage.write(b"n", &77u32);
    storage.write(b"s", &"hällo wörld".to_owned());
    storage.write(b"id", &[5u8; 20]);
    assert_eq!(storage.read::<u32>(b"n"), Ok(Some(77)));
    assert_eq!(storage.read::<String>(b"s"), Ok(Some("hällo wörld".to_owned())));
    assert_eq!(storage.read::<[u8; 20]>(b"id"), Ok(Some([5u8; 20])));
}

#[test]
fn typed_read_of_another_type_is_malformed() {
    let mut env = TestEnv::new();
    let mut storage = Storage::new(&mut env);
    storage.write(b"s", &"text".to_owned());
    assert_eq!(storage.read::<u32>(b"s"), Err(StorageError::Malformed));
    storage.write_bytes(b"junk", &[0xff, 0x00]);
    assert_eq!(storage.read::<String>(b"junk"), Err(StorageError::Malformed));
}

#[test]
fn test_env_reads_zero_where_nothing_was_written() {
    let env = TestEnv::new();
    assert_eq!(env.read(&[1u8; 32]), [0u8; 32]);
    assert_eq!(env.sender(), [0u8; 20]);
    assert_eq!(env.block_number(), 0);
    let default_env = TestEnv::default();
    assert_eq!(default_env.read(&[0u8; 32]), [0u8; 32]);
}

#[test]
fn test_env_keeps_the_last_word_written_under_a_key() {
    let mut env = TestEnv::new();
    env.write(&[1u8; 32], &[10u8; 32]);
    env.write(&[2u8; 32], &[20u8; 32]);
    env.write(&[1u8; 32], &[11u8; 32]);
    assert_eq!(env.read(&[1u8; 32]), [11u8; 32]);
    assert_eq!(env.read(&[2u8; 32]), [20u8; 32]);
    assert_eq!(env.state.len(), 2);
}

#[test]
fn padded_bytes_pads_and_cuts() {
    assert_eq!(padded_bytes_32(&[]), [0u8; 32]);
    let mut expected = [0u8; 32];
    expected[0] = 1;
    expected[1] = 2;
    assert_eq!(padded_bytes_32(&[1, 2]), expected);
    let long = pattern(40);
    assert_eq!(padded_bytes_32(&long)[..], long[0..32]);
}

#[test]
fn word_succ_adds_one() {
    let mut word = [0u8; 32];
    let mut next = [0u8; 32];
    next[31] = 1;
    assert_eq!(word_succ(&word), next);
    word[31] = 0xff;
    word[30] = 0xff;
    let mut carried = [0u8; 32];
    carried[29] = 1;
    assert_eq!(word_succ(&word), carried);
}

#[test]
fn word_succ_wraps_around() {
    assert_eq!(word_succ(&[0xff; 32]), [0u8; 32]);
}

#[test]
fn chunks_of_a_record_at_the_end_of_the_key_space_wrap_around() {
    // Same arithmetic as the uint crate, without its overflow panic.
    let max = ethereum_types::U256::MAX;
    let (sum, overflow) = max.overflowing_add(ethereum_types::U256::from(1u64));
    assert!(overflow);
    let expected: [u8; 32] = sum.into();
    assert_eq!(word_succ(&max.into()), expected);
}

#[test]
fn length_word_is_big_endian() {
    let mut expected = [0u8; 32];
    expected[30] = 0x01;
    expected[31] = 0x02;
    assert_eq!(length_word(0x0102), expected);
    let from_uint: [u8; 32] = ethereum_types::U256::from(123_456_789usize).into();
    assert_eq!(length_word(123_456_789), from_uint);
    assert_eq!(word_length(&from_uint), Some(123_456_789));
    assert_eq!(word_length(&[0u8; 32]), Some(0));
    let mut too_large = [0u8; 32];
    too_large[0] = 1;
    assert_eq!(word_length(&too_large), None);
    assert_eq!(word_length(&length_word(usize::MAX)), Some(usize::MAX));
}

#[test]
fn word_eq_compares_all_bytes() {
    let a = [7u8; 32];
    let mut b = [7u8; 32];
    assert!(word_eq(&a, &b));
    b[31] = 8;
    assert!(!word_eq(&a, &b));
}
