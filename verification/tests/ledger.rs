use oscoin_ledger::pwasm::{Address, TestEnv};
use oscoin_ledger::storage::StorageError;
use oscoin_ledger::{compute_project_id, Ledger, Ledger_, Project};

fn test_sender() -> Address {
    ethereum_types::Address::from_low_u64_le(123_456_789).to_fixed_bytes()
}

fn new_ledger() -> Ledger_<TestEnv> {
    let mut test_env = TestEnv::new();
    test_env.sender = test_sender();
    Ledger_::new(test_env)
}

#[test]
fn counter_inc() {
    let mut ledger = new_ledger();
    for _ in 0..10 {
        ledger.counter_inc().unwrap()
    }
    let counter = ledger.counter_value().unwrap();
    assert_eq!(counter, 10);
}

#[test]
fn counter_default() {
    let mut ledger = new_ledger();
    let counter = ledger.counter_value().unwrap();
    assert_eq!(counter, 0);
}

#[test]
fn lib_register_project() {
    let mut ledger = new_ledger();

    let name = "monokol";
    let description = "Looking glass into the future.";
    let img_url = "https://monok.el/img/logo.svg";
    let project_id = ledger
        .register_project(name.to_owned(), description.to_owned(), img_url.to_owned())
        .unwrap();
    let project = ledger.get_project(project_id).unwrap().unwrap();

    assert_eq!(project.name, name);
    assert_eq!(project.description, description);
    assert_eq!(project.img_url, img_url);
    assert_eq!(project.members, vec![test_sender()]);
}

#[test]
fn ping_answers_pong() {
    let mut ledger = new_ledger();
    assert_eq!(ledger.ping(), "pong");
}

#[test]
fn counter_never_decreases_between_increments() {
    let mut ledger = new_ledger();
    let mut last = ledger.counter_value().unwrap();
    for expected in 1..=25u32 {
        ledger.counter_inc().unwrap();
        let now = ledger.counter_value().unwrap();
        assert!(now >= last);
        assert_eq!(now, expected);
        assert_eq!(ledger.counter_value().unwrap(), expected);
        last = now;
    }
}

#[test]
fn counter_wraps_around_at_the_maximum() {
    let mut ledger = new_ledger();
    oscoin_ledger::storage::CounterStorage::new(ledger.storage()).set(u32::MAX - 1);
    ledger.counter_inc().unwrap();
    assert_eq!(ledger.counter_value().unwrap(), u32::MAX);
    ledger.counter_inc().unwrap();
    assert_eq!(ledger.counter_value().unwrap(), 0);
}

#[test]
fn counter_storage_get_set_update() {
    let mut env = TestEnv::new();
    let mut counter =
        oscoin_ledger::storage::CounterStorage::new(oscoin_ledger::storage::Storage::new(&mut env));
    assert_eq!(counter.get(), Ok(0));
    counter.set(41);
    assert_eq!(counter.get(), Ok(41));
    counter.update(|v| v + 1).unwrap();
    assert_eq!(counter.get(), Ok(42));
    counter.update(|v| v * 10).unwrap();
    assert_eq!(counter.get(), Ok(420));
}

#[test]
fn counter_that_is_no_number_is_malformed() {
    let mut ledger = new_ledger();
    ledger.storage().write(b"counter", &"seven".to_owned());
    assert_eq!(ledger.counter_value(), Err(StorageError::Malformed));
    assert_eq!(ledger.counter_inc(), Err(StorageError::Malformed));
    // Nothing was written by the failed increment.
    let stored: Option<String> = ledger.storage().read(b"counter").unwrap();
    assert_eq!(stored, Some("seven".to_owned()));
}

#[test]
fn project_id_is_the_start_of_the_hash_of_sender_and_block() {
    let sender = test_sender();
    let block: u64 = 0x0102_0304_0506_0708;
    let mut data = sender.to_vec();
    data.extend_from_slice(&block.to_be_bytes());
    let hash = tiny_keccak::keccak256(&data);
    assert_eq!(compute_project_id(sender, block), hash[0..20]);
    assert_ne!(compute_project_id(sender, block), compute_project_id(sender, block + 1));
}

#[test]
fn project_id_of_zero_sender_in_block_zero() {
    // keccak256 of 28 zero bytes, cut to 20 bytes.
    let hash = tiny_keccak::keccak256(&[0u8; 28]);
    let id = compute_project_id([0u8; 20], 0);
    assert_eq!(id, hash[0..20]);
    assert_ne!(id, [0u8; 20]);
}

#[test]
fn registered_project_id_depends_on_sender_and_block() {
    let mut env = TestEnv::new();
    env.sender = test_sender();
    env.block_number = 7;
    let mut ledger = Ledger_::new(env);
    let id = ledger
        .register_project("a".to_owned(), "b".to_owned(), "c".to_owned())
        .unwrap();
    assert_eq!(id, compute_project_id(test_sender(), 7));
}

#[test]
fn get_project_of_unknown_id_is_none() {
    let mut ledger = new_ledger();
    assert_eq!(ledger.get_project([9u8; 20]), Ok(None));
}

#[test]
fn second_registration_in_the_same_block_overwrites_the_first() {
    let mut ledger = new_ledger();
    let first = ledger
        .register_project("one".to_owned(), "first".to_owned(), "u1".to_owned())
        .unwrap();
    let second = ledger
        .register_project("two".to_owned(), "second".to_owned(), "u2".to_owned())
        .unwrap();
    assert_eq!(first, second);
    let project = ledger.get_project(first).unwrap().unwrap();
    assert_eq!(project.name, "two");
    assert_eq!(project.description, "second");
    assert_eq!(project.img_url, "u2");
    // The identifier is listed once.
    assert_eq!(ledger.list_projects().unwrap().len(), 1);
}

#[test]
fn list_projects_gives_all_registered_projects_in_order() {
    let mut env = TestEnv::new();
    env.sender = test_sender();
    let mut ledger = Ledger_::new(env);
    assert_eq!(ledger.list_projects(), Ok(Vec::new()));
    let mut expected: Vec<Project> = Vec::new();
    for ix in 0..7u64 {
        ledger.env.block_number = ix;
        let img_url = format!("https://img.examples.com/{}", ix);
        ledger
            .register_project("name".to_owned(), "description".to_owned(), img_url.clone())
            .unwrap();
        expected.push(Project {
            name: "name".to_owned(),
            description: "description".to_owned(),
            img_url,
            members: vec![test_sender()],
        });
    }
    assert_eq!(ledger.list_projects().unwrap(), expected);
}

#[test]
fn list_projects_fails_where_a_listed_project_is_missing() {
    let mut ledger = new_ledger();
    let listed: Vec<[u8; 20]> = vec![[3u8; 20]];
    ledger.storage().write(b"projects", &listed);
    assert_eq!(ledger.list_projects(), Err(StorageError::Malformed));
}

#[test]
fn register_project_fails_where_the_list_of_ids_is_malformed() {
    let mut ledger = new_ledger();
    ledger.storage().write(b"projects", &17u32);
    let r = ledger.register_project("a".to_owned(), "b".to_owned(), "c".to_owned());
    assert_eq!(r, Err(StorageError::Malformed));
    assert_eq!(ledger.get_project(compute_project_id(test_sender(), 0)), Ok(None));
}

#[test]
fn queries_leave_the_store_as_it_is() {
    let mut ledger = new_ledger();
    ledger.counter_inc().unwrap();
    ledger
        .register_project("a".to_owned(), "b".to_owned(), "c".to_owned())
        .unwrap();
    let before = ledger.env.state.clone();
    ledger.ping();
    ledger.counter_value().unwrap();
    ledger.get_project([1u8; 20]).unwrap();
    ledger.list_projects().unwrap();
    assert_eq!(ledger.env.state, before);
}

#[test]
fn list_projects_names_equal_projects_once() {
    let mut ledger = new_ledger();
    for block in 0..3u64 {
        ledger.env.block_number = block;
        ledger
            .register_project("same".to_owned(), "same".to_owned(), "same".to_owned())
            .unwrap();
    }
    ledger.env.block_number = 3;
    ledger
        .register_project("other".to_owned(), "same".to_owned(), "same".to_owned())
        .unwrap();
    let listed = ledger.list_projects().unwrap();
    assert_eq!(listed.len(), 2);
    assert_eq!(listed[0].name, "same");
    assert_eq!(listed[1].name, "other");
    // All four identifiers are on the list.
    let ids: Vec<[u8; 20]> = ledger.storage().read(b"projects").unwrap().unwrap();
    assert_eq!(ids.len(), 4);
}
