use oscoin_ledger::codec::{decode, encode};
use oscoin_ledger::pwasm::TestEnv;
use oscoin_ledger::storage::StorageError;
use oscoin_ledger::{call, compute_project_id, dispatch, Call, CallError, Ledger, Ledger_, Project, Query, Update};

const SENDER: [u8; 20] = [0x11; 20];

fn ledger_at_block(block: u64) -> Ledger_<TestEnv> {
    let mut env = TestEnv::new();
    env.sender = SENDER;
    env.block_number = block;
    Ledger_::new(env)
}

fn register(name: &str) -> Call {
    Call::Update(Update::RegisterProject {
        name: name.to_owned(),
        description: "description".to_owned(),
        img_url: "url".to_owned(),
    })
}

#[test]
fn dispatch_ping() {
    let mut ledger = ledger_at_block(0);
    let response = dispatch(&mut ledger, Call::Query(Query::Ping)).unwrap();
    assert_eq!(decode::<String>(&response), Some("pong".to_owned()));
    assert_eq!(response, serde_cbor::to_vec(&"pong").unwrap());
}

#[test]
fn dispatch_counter() {
    let mut ledger = ledger_at_block(0);
    let response = dispatch(&mut ledger, Call::Query(Query::CounterValue)).unwrap();
    assert_eq!(decode::<u32>(&response), Some(0));
    for _ in 0..3 {
        let response = dispatch(&mut ledger, Call::Update(Update::CounterInc)).unwrap();
        assert_eq!(decode::<()>(&response), Some(()));
        assert_eq!(response, vec![0xf6]);
    }
    let response = dispatch(&mut ledger, Call::Query(Query::CounterValue)).unwrap();
    assert_eq!(decode::<u32>(&response), Some(3));
    assert_eq!(ledger.counter_value(), Ok(3));
}

#[test]
fn dispatch_register_and_get_project() {
    let mut ledger = ledger_at_block(5);
    let response = dispatch(&mut ledger, register("monokol")).unwrap();
    let id = decode::<[u8; 20]>(&response).unwrap();
    assert_eq!(id, compute_project_id(SENDER, 5));

    let response = dispatch(&mut ledger, Call::Query(Query::GetProject { project_id: id })).unwrap();
    let project = decode::<Option<Project>>(&response).unwrap().unwrap();
    assert_eq!(
        project,
        Project {
            name: "monokol".to_owned(),
            description: "description".to_owned(),
            img_url: "url".to_owned(),
            members: vec![SENDER],
        }
    );

    let response =
        dispatch(&mut ledger, Call::Query(Query::GetProject { project_id: [0u8; 20] })).unwrap();
    assert_eq!(decode::<Option<Project>>(&response), Some(None));
}

#[test]
fn dispatch_list_projects() {
    let mut ledger = ledger_at_block(1);
    let response = dispatch(&mut ledger, Call::Query(Query::ListProjects)).unwrap();
    assert_eq!(decode::<Vec<Project>>(&response), Some(vec![]));
    dispatch(&mut ledger, register("one")).unwrap();
    ledger.env.block_number = 2;
    dispatch(&mut ledger, register("two")).unwrap();
    let response = dispatch(&mut ledger, Call::Query(Query::ListProjects)).unwrap();
    let names: Vec<String> = decode::<Vec<Project>>(&response)
        .unwrap()
        .into_iter()
        .map(|project| project.name)
        .collect();
    assert_eq!(names, vec!["one".to_owned(), "two".to_owned()]);
}

#[test]
fn dispatch_hands_on_storage_errors() {
    let mut ledger = ledger_at_block(0);
    ledger.storage().write(b"counter", &"no number".to_owned());
    assert_eq!(
        dispatch(&mut ledger, Call::Query(Query::CounterValue)),
        Err(StorageError::Malformed)
    );
    assert_eq!(
        dispatch(&mut ledger, Call::Update(Update::CounterInc)),
        Err(StorageError::Malformed)
    );
}

#[test]
fn call_answers_encoded_calls() {
    let mut ledger = ledger_at_block(9);
    let response = call(&mut ledger, &Call::Query(Query::Ping).serialize()).unwrap();
    assert_eq!(response, encode(&"pong".to_owned()));
    call(&mut ledger, &Call::Update(Update::CounterInc).serialize()).unwrap();
    let response = call(&mut ledger, &Call::Query(Query::CounterValue).serialize()).unwrap();
    assert_eq!(response, encode(&1u32));
    let response = call(&mut ledger, &register("p").serialize()).unwrap();
    assert_eq!(response, encode(&compute_project_id(SENDER, 9)));
}

#[test]
fn call_refuses_what_is_no_call_and_changes_nothing() {
    let mut ledger = ledger_at_block(0);
    ledger.counter_inc().unwrap();
    let before = ledger.env.state.clone();
    assert_eq!(call(&mut ledger, &[]), Err(CallError::Decode));
    assert_eq!(call(&mut ledger, &[0xa1]), Err(CallError::Decode));
    let mut bytes = Call::Update(Update::CounterInc).serialize();
    bytes.pop();
    assert_eq!(call(&mut ledger, &bytes), Err(CallError::Decode));
    assert_eq!(ledger.env.state, before);
    assert_eq!(ledger.counter_value(), Ok(1));
}

#[test]
fn call_reports_storage_errors() {
    let mut ledger = ledger_at_block(0);
    ledger.storage().write(b"counter", &"no number".to_owned());
    assert_eq!(
        call(&mut ledger, &Call::Query(Query::CounterValue).serialize()),
        Err(CallError::Storage(StorageError::Malformed))
    );
}

#[test]
fn transaction_with_status_zero_failed() {
    assert!(oscoin_ledger::client::transaction_failed(Some(0)));
    assert!(!oscoin_ledger::client::transaction_failed(Some(1)));
    assert!(!oscoin_ledger::client::transaction_failed(None));
}
