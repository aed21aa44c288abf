//! The ledger as a client sees it: encoded calls go in through the entry
//! point, encoded answers come back.
use oscoin_ledger::codec::decode;
use oscoin_ledger::pwasm::TestEnv;
use oscoin_ledger::{call, compute_project_id, Call, Ledger_, Project, ProjectId, Query, Update};
use std::collections::BTreeSet;

type AccountId = [u8; 20];

struct Client {
    ledger: Ledger_<TestEnv>,
}

impl Client {
    fn new(sender: AccountId) -> Client {
        let mut env = TestEnv::new();
        env.sender = sender;
        Client { ledger: Ledger_::new(env) }
    }

    fn send(&mut self, call_: Call) -> Vec<u8> {
        let response = call(&mut self.ledger, &call_.serialize()).unwrap();
        if let Call::Update(_) = call_ {
            // Every transaction gets a block of its own.
            self.ledger.env.block_number += 1;
        }
        response
    }

    fn counter_inc(&mut self) {
        let response = self.send(Call::Update(Update::CounterInc));
        assert_eq!(decode::<()>(&response), Some(()));
    }

    fn counter_value(&mut self) -> u32 {
        decode(&self.send(Call::Query(Query::CounterValue))).unwrap()
    }

    fn register_project(&mut self, name: String, description: String, img_url: String) -> ProjectId {
        let block = self.ledger.env.block_number;
        let response =
            self.send(Call::Update(Update::RegisterProject { name, description, img_url }));
        let id: ProjectId = decode(&response).unwrap();
        assert_eq!(id, compute_project_id(self.ledger.env.sender, block));
        id
    }

    fn get_project(&mut self, project_id: ProjectId) -> Option<Project> {
        decode(&self.send(Call::Query(Query::GetProject { project_id }))).unwrap()
    }

    fn list_projects(&mut self) -> Vec<Project> {
        decode(&self.send(Call::Query(Query::ListProjects))).unwrap()
    }
}

fn dev_account_address() -> AccountId {
    let bytes = hex::decode("bcd6e47db1ac1f7f021988e20854d27778de6e4d").unwrap();
    let mut address = [0u8; 20];
    address.copy_from_slice(&bytes);
    address
}

#[test]
fn counter() {
    let mut client = Client::new(dev_account_address());

    for _ in 0..10 {
        client.counter_inc();
    }
    let counter = client.counter_value();
    assert_eq!(counter, 10);
}

#[test]
fn end_to_end_register_project() {
    let sender = [0x5e; 20];
    let mut client = Client::new(sender);

    let name = "monokol";
    let description = "Looking glass into the future.";
    let img_url = "https://monok.el/img/logo.svg";
    let project_id =
        client.register_project(name.to_owned(), description.to_owned(), img_url.to_owned());

    let project = client.get_project(project_id).unwrap();

    assert_eq!(project.name, name);
    assert_eq!(project.description, description);
    assert_eq!(project.img_url, img_url);
    assert_eq!(project.members, vec![sender]);
}

#[test]
fn list_projects() {
    let sender = [0x5e; 20];
    let mut client = Client::new(sender);

    let img_url_vec: Vec<String> = (0..7)
        .map(|ix: i32| "https://img.examples.com/".to_owned() + &ix.to_string())
        .collect();
    let img_url_set: BTreeSet<String> = img_url_vec.iter().cloned().collect();

    for url in img_url_vec.iter().take(7) {
        client.register_project("name".to_owned(), "description".to_owned(), url.to_owned());
    }

    let project_list = client.list_projects();

    // Check that URLs of every listed project match those that were used
    // in the start.
    // Sets are used for ease of comparison and to remove duplicates.
    assert_eq!(
        img_url_set,
        project_list
            .clone()
            .iter()
            .map(|project| { project.img_url.clone() })
            .collect()
    );

    let vec: Vec<AccountId> = vec![sender];
    let mut member_vec_set = BTreeSet::new();
    member_vec_set.insert(vec);

    // Check that the members of the listed projects correspond to those
    // that were registered in the ledger.
    assert_eq!(
        project_list
            .iter()
            .map(|project| { project.members.clone() })
            .collect::<BTreeSet<Vec<AccountId>>>(),
        member_vec_set
    )
}
