//! A minimal ledger on top of a store of 32-byte words.
//!
//! The ledger keeps a counter and a registry of projects. Callers reach it
//! through one entry point, [`call`], which takes an encoded [`Call`] and
//! gives back the encoded answer.
pub mod call;
pub mod cbor;
pub mod client;
pub mod codec;
pub mod hash;
pub mod interface;
pub mod project;
pub mod pwasm;
pub mod storage;
pub mod transactions;
pub mod word;

use crate::cbor::{lemma_head_shape, write_be, MAJOR_MAP};
use crate::codec::{encodes, list_item};
use crate::hash::keccak;
pub use crate::interface::{dispatch, AccountId, Call, Ledger, Project, ProjectId, Query, Update};
use crate::interface::{
    counter_inc_post, counter_value_post, dispatch_post, fetch_fails, get_project_post, index_is,
    list_post, listed, lists, new_project, project_fails, project_id_of, projects_key,
    register_post, registered, with_id, without_repeats, CallModel, LedgerState, ProjectModel,
    PROJECTS_KEY,
};
use crate::project::project_item;
use crate::pwasm::{Address, Env};
use crate::storage::{
    lemma_value_after_write, read_fails, value_is, written, CounterStorage, Storage, StorageError,
};
use crate::word::be_bytes;
use vstd::prelude::*;

verus! {

/// Implements [`Ledger`] backed by [`Storage`].
pub struct Ledger_<E: Env> {
    /// The word store and the context of the current call.
    pub env: E,
}

impl<E: Env> Ledger_<E> {
    /// A ledger that runs on `env`.
    pub fn new(env: E) -> (ledger: Ledger_<E>)
        ensures
            ledger.env == env,
    {
        Ledger_ { env }
    }

    /// The storage of the ledger, for one read or write.
    pub fn storage(&mut self) -> (storage: Storage<'_, E>)
        ensures
            *storage.env == old(self).env,
            *final(storage.env) == final(self).env,
    {
        Storage::new(&mut self.env)
    }

    /// Reads the list of the identifiers of all registered projects.
    fn read_index(&mut self) -> (r: Result<Vec<ProjectId>, StorageError>)
        ensures
            final(self).env == old(self).env,
            match r {
                Ok(ids) => index_is(old(self).env.words(), ids.deep_view()),
                Err(e) => read_fails::<Vec<ProjectId>>(old(self).env.words(), projects_key(), e),
            },
            forall|ids2: Seq<Seq<u8>>| #[trigger]
                index_is(old(self).env.words(), ids2) ==> (r matches Ok(ids) && ids.deep_view()
                    == ids2),
    {
        let read = self.storage().read::<Vec<ProjectId>>(PROJECTS_KEY.as_bytes());
        match read {
            Ok(Some(ids)) => Ok(ids),
            Ok(None) => {
                let ids: Vec<ProjectId> = Vec::new();
                proof {
                    assert(ids.deep_view() =~= Seq::<Seq<u8>>::empty());
                    assert forall|ids2: Seq<Seq<u8>>| #[trigger]
                        index_is(old(self).env.words(), ids2) implies ids.deep_view() == ids2 by {
                        assert(ids2 =~= Seq::<Seq<u8>>::empty());
                    }
                }
                Ok(ids)
            },
            Err(e) => Err(e),
        }
    }

    /// Reads the project under a listed identifier. A listed identifier
    /// without a project counts as malformed.
    fn fetch_project(&mut self, id: &ProjectId) -> (r: Result<Project, StorageError>)
        ensures
            final(self).env == old(self).env,
            match r {
                Ok(project) => value_is::<Project>(
                    old(self).env.words(),
                    id.deep_view(),
                    Some(project.deep_view()),
                ),
                Err(e) => project_fails(old(self).env.words(), id.deep_view(), e),
            },
            forall|w: ProjectModel| #[trigger]
                value_is::<Project>(old(self).env.words(), id.deep_view(), Some(w)) ==> (
                r matches Ok(project) && project.deep_view() == w),
    {
        proof {
            assert(id.deep_view() =~= id@);
        }
        let read = self.storage().read::<Project>(id.as_slice());
        match read {
            Ok(Some(project)) => Ok(project),
            Ok(None) => Err(StorageError::Malformed),
            Err(e) => Err(e),
        }
    }

    /// Stores `project` under `id`.
    fn store_project(&mut self, id: &ProjectId, project: &Project)
        ensures
            final(self).env.words() == written(
                old(self).env.words(),
                id.deep_view(),
                project_item(project.deep_view()),
            ),
            value_is::<Project>(
                final(self).env.words(),
                id.deep_view(),
                Some(project.deep_view()),
            ),
            final(self).env.current_sender() == old(self).env.current_sender(),
            final(self).env.current_block() == old(self).env.current_block(),
    {
        let ghost before = self.env.words();
        proof {
            assert(id.deep_view() =~= id@);
        }
        self.storage().write::<Project>(id.as_slice(), project);
        proof {
            lemma_head_shape(MAJOR_MAP, 4);
            lemma_value_after_write::<Project>(before, id@, project.deep_view());
        }
    }

    /// Stores `ids` as the list of the identifiers of all registered
    /// projects.
    fn store_index(&mut self, ids: &Vec<ProjectId>)
        ensures
            final(self).env.words() == written(
                old(self).env.words(),
                projects_key(),
                list_item::<ProjectId>(ids.deep_view()),
            ),
            final(self).env.current_sender() == old(self).env.current_sender(),
            final(self).env.current_block() == old(self).env.current_block(),
    {
        self.storage().write::<Vec<ProjectId>>(PROJECTS_KEY.as_bytes(), ids);
    }
}

/// Computes the ID of a project registered by `creator` in the given block
/// through a cryptographic hash.
///
/// Two registrations by the same account in the same block get the same
/// identifier, and the second one overwrites the first.
pub fn compute_project_id(creator: Address, block_number: u64) -> (project_id: ProjectId)
    ensures
        project_id@ == project_id_of(creator@, block_number),
{
    let mut data: Vec<u8> = Vec::new();
    data.extend_from_slice(creator.as_slice());
    write_be(&mut data, block_number, 8);
    let hash = keccak(data.as_slice());
    let mut project_id: [u8; 20] = [0u8; 20];
    let mut i: usize = 0;
    while i < 20
        invariant
            i <= 20,
            forall|k: int| 0 <= k < i ==> project_id@[k] == hash@[k],
        decreases 20 - i,
    {
        project_id[i] = hash[i];
        i = i + 1;
    }
    proof {
        assert(data@ =~= creator@ + be_bytes(block_number as nat, 8));
        assert(project_id@ =~= hash@.subrange(0, 20));
    }
    project_id
}

/// Whether two identifiers hold the same bytes.
fn same_id(a: &ProjectId, b: &ProjectId) -> (same: bool)
    ensures
        same == (a.deep_view() == b.deep_view()),
{
    let mut i: usize = 0;
    while i < 20
        invariant
            i <= 20,
            forall|k: int| 0 <= k < i ==> a@[k] == b@[k],
        decreases 20 - i,
    {
        if a[i] != b[i] {
            proof {
                assert(a.deep_view()[i as int] == a@[i as int]);
                assert(b.deep_view()[i as int] == b@[i as int]);
            }
            return false;
        }
        i = i + 1;
    }
    proof {
        assert(a.deep_view() =~= b.deep_view());
    }
    true
}

/// Whether `id` is among `ids`.
fn contains_id(ids: &Vec<ProjectId>, id: &ProjectId) -> (found: bool)
    ensures
        found == ids.deep_view().contains(id.deep_view()),
{
    let mut i: usize = 0;
    while i < ids.len()
        invariant
            i <= ids@.len(),
            forall|k: int| 0 <= k < i ==> ids.deep_view()[k] != id.deep_view(),
        decreases ids@.len() - i,
    {
        if same_id(&ids[i], id) {
            proof {
                assert(ids.deep_view()[i as int] == id.deep_view());
            }
            return true;
        }
        i = i + 1;
    }
    false
}

/// Whether two projects hold the same values.
fn same_project(a: &Project, b: &Project) -> (same: bool)
    ensures
        same == (a.deep_view() == b.deep_view()),
{
    if a.name != b.name || a.description != b.description || a.img_url != b.img_url {
        return false;
    }
    if a.members.len() != b.members.len() {
        proof {
            assert(a.members.deep_view().len() != b.members.deep_view().len());
        }
        return false;
    }
    let mut i: usize = 0;
    while i < a.members.len()
        invariant
            i <= a.members@.len(),
            a.members@.len() == b.members@.len(),
            forall|k: int|
                0 <= k < i ==> a.members.deep_view()[k] == b.members.deep_view()[k],
        decreases a.members@.len() - i,
    {
        if !same_id(&a.members[i], &b.members[i]) {
            proof {
                assert(a.members.deep_view()[i as int] != b.members.deep_view()[i as int]);
            }
            return false;
        }
        i = i + 1;
    }
    proof {
        assert(a.members.deep_view() =~= b.members.deep_view());
    }
    true
}

/// Whether `project` is among `projects`.
fn contains_project(projects: &Vec<Project>, project: &Project) -> (found: bool)
    ensures
        found == projects.deep_view().contains(project.deep_view()),
{
    let mut i: usize = 0;
    while i < projects.len()
        invariant
            i <= projects@.len(),
            forall|k: int| 0 <= k < i ==> projects.deep_view()[k] != project.deep_view(),
        decreases projects@.len() - i,
    {
        if same_project(&projects[i], project) {
            proof {
                assert(projects.deep_view()[i as int] == project.deep_view());
            }
            return true;
        }
        i = i + 1;
    }
    false
}

impl<E: Env> Ledger for Ledger_<E> {
    open spec fn state(&self) -> LedgerState {
        LedgerState {
            words: self.env.words(),
            sender: self.env.current_sender(),
            block: self.env.current_block(),
        }
    }

    fn ping(&mut self) -> (pong: String) {
        "pong".to_owned()
    }

    fn counter_inc(&mut self) -> (r: Result<(), StorageError>) {
        proof {
            reveal(counter_inc_post);
        }
        let mut counter = CounterStorage::new(self.storage());
        let n = match counter.get() {
            Ok(n) => n,
            Err(e) => {
                return Err(e);
            },
        };
        let next: u32 = if n == u32::MAX {
            0
        } else {
            n + 1
        };
        counter.set(next);
        Ok(())
    }

    fn counter_value(&mut self) -> (r: Result<u32, StorageError>) {
        proof {
            reveal(counter_value_post);
        }
        CounterStorage::new(self.storage()).get()
    }

    fn register_project(&mut self, name: String, description: String, img_url: String) -> (r:
        Result<ProjectId, StorageError>) {
        proof {
            reveal(register_post);
        }
        let ghost s = self.state();
        let sender = self.env.sender();
        let id = compute_project_id(sender, self.env.block_number());
        let mut ids = match self.read_index() {
            Ok(ids) => ids,
            Err(e) => {
                return Err(e);
            },
        };
        let ghost before = ids.deep_view();
        if !contains_id(&ids, &id) {
            ids.push(id);
        }
        proof {
            assert(id.deep_view() =~= id@);
            assert(ids.deep_view() =~= with_id(before, id@));
        }
        self.store_index(&ids);
        let project = Project { name, description, img_url, members: vec![sender] };
        proof {
            assert(sender.deep_view() =~= sender@);
            assert(project.members.deep_view() =~= seq![sender@]);
            assert(project.deep_view() == new_project(name@, description@, img_url@, sender@));
        }
        let ghost p = project.deep_view();
        self.store_project(&id, &project);
        proof {
            assert(index_is(s.words, before));
            assert(self.env.words() == registered(s.words, before, id@, p));
            assert forall|ids2: Seq<Seq<u8>>| #[trigger] index_is(s.words, ids2) implies ids2
                == before by {}
        }
        Ok(id)
    }

    fn get_project(&mut self, project_id: ProjectId) -> (r: Result<Option<Project>, StorageError>) {
        proof {
            reveal(get_project_post);
            assert(project_id.deep_view() =~= project_id@);
        }
        self.storage().read::<Project>(project_id.as_slice())
    }

    fn list_projects(&mut self) -> (r: Result<Vec<Project>, StorageError>) {
        proof {
            reveal(list_post);
        }
        let ghost s = self.state();
        let ids = match self.read_index() {
            Ok(ids) => ids,
            Err(e) => {
                return Err(e);
            },
        };
        let ghost all = ids.deep_view();
        let ghost mut found: Seq<ProjectModel> = Seq::empty();
        let mut projects: Vec<Project> = Vec::new();
        let mut i: usize = 0;
        proof {
            assert(all.take(0) =~= Seq::<Seq<u8>>::empty());
            assert(projects.deep_view() =~= Seq::<ProjectModel>::empty());
        }
        while i < ids.len()
            invariant
                i <= ids@.len(),
                all == ids.deep_view(),
                self.env == old(self).env,
                s == old(self).state(),
                i == found.len(),
                listed(s.words, all.take(i as int), found),
                projects.deep_view() == without_repeats(found),
                index_is(s.words, all),
                forall|ids2: Seq<Seq<u8>>| #[trigger] index_is(s.words, ids2) ==> ids2 == all,
                forall|k: int, w: ProjectModel|
                    0 <= k < i && #[trigger] value_is::<Project>(s.words, all[k], Some(w)) ==> w
                        == found[k],
            decreases ids@.len() - i,
        {
            let ghost kept = projects.deep_view();
            match self.fetch_project(&ids[i]) {
                Ok(project) => {
                    let ghost before = found;
                    proof {
                        found = found.push(project.deep_view());
                        assert(found.drop_last() =~= before);
                        assert(all.take(i as int + 1) =~= all.take(i as int).push(all[i as int]));
                        assert forall|k: int| 0 <= k < i + 1 implies value_is::<Project>(
                            s.words,
                            #[trigger] all.take(i as int + 1)[k],
                            Some(found[k]),
                        ) by {
                            if k < i {
                                assert(all.take(i as int)[k] == all[k]);
                            }
                        }
                    }
                    if !contains_project(&projects, &project) {
                        projects.push(project);
                        proof {
                            assert(projects.deep_view() =~= kept.push(project.deep_view()));
                        }
                    }
                },
                Err(e) => {
                    proof {
                        assert(all[i as int] == ids@[i as int].deep_view());
                        assert(index_is(s.words, all) && found.len() < all.len() && listed(
                            s.words,
                            all.take(found.len() as int),
                            found,
                        ) && project_fails(s.words, all[found.len() as int], e));
                        assert(fetch_fails(s.words, e));
                        reveal(list_post);
                        assert forall|ids2: Seq<Seq<u8>>, ps: Seq<ProjectModel>|
                            index_is(s.words, ids2) && #[trigger] listed(
                                s.words,
                                ids2,
                                ps,
                            ) implies false by {
                            assert(value_is::<Project>(s.words, ids2[i as int], Some(ps[i as int])));
                        }
                    }
                    return Err(e);
                },
            }
            i = i + 1;
        }
        proof {
            assert(all.take(i as int) =~= all);
            assert(lists(s.words, projects.deep_view()));
            assert forall|ids2: Seq<Seq<u8>>, ps: Seq<ProjectModel>|
                index_is(s.words, ids2) && #[trigger] listed(s.words, ids2, ps) implies ps
                == found by {
                assert forall|k: int| 0 <= k < ps.len() implies ps[k] == found[k] by {
                    assert(value_is::<Project>(s.words, ids2[k], Some(ps[k])));
                }
                assert(ps =~= found);
            }
        }
        Ok(projects)
    }
}

/// Why a call was not answered.
#[derive(Debug, Clone, Copy, PartialEq, Eq, Structural)]
pub enum CallError {
    /// The input is not the encoding of a call.
    Decode,
    /// What the store holds could not be read.
    Storage(StorageError),
}

/// The result of a call with its bytes replaced by their view.
pub open spec fn answer_bytes(r: Result<Vec<u8>, CallError>) -> Result<Seq<u8>, CallError> {
    match r {
        Ok(bytes) => Ok(bytes@),
        Err(e) => Err(e),
    }
}

/// The result of a call that was dispatched, as the result of the dispatch.
pub open spec fn dispatched(r: Result<Seq<u8>, CallError>) -> Result<Seq<u8>, StorageError> {
    match r {
        Ok(bytes) => Ok(bytes),
        Err(CallError::Storage(e)) => Err(e),
        Err(CallError::Decode) => Err(StorageError::Malformed),
    }
}

/// What handling the input `input` does to the state `s`, and what it
/// returns. Input that is not the encoding of a call is refused and nothing
/// changes. Every other input is dispatched.
pub open spec fn call_post(
    s: LedgerState,
    input: Seq<u8>,
    after: LedgerState,
    r: Result<Seq<u8>, CallError>,
) -> bool {
    &&& r == Err::<Seq<u8>, CallError>(CallError::Decode) <==> forall|c: CallModel|
        !encodes::<Call>(input, c)
    &&& r == Err::<Seq<u8>, CallError>(CallError::Decode) ==> after == s
    &&& forall|c: CallModel| #[trigger]
        encodes::<Call>(input, c) ==> dispatch_post(s, c, after, dispatched(r))
}

/// An encoded call is never refused as undecodable: it is dispatched, as the
/// call that was encoded.
pub proof fn lemma_encoded_call_is_dispatched(
    s: LedgerState,
    c: CallModel,
    input: Seq<u8>,
    after: LedgerState,
    r: Result<Seq<u8>, CallError>,
)
    requires
        encodes::<Call>(input, c),
        call_post(s, input, after, r),
    ensures
        r != Err::<Seq<u8>, CallError>(CallError::Decode),
        dispatch_post(s, c, after, dispatched(r)),
{
}

/// The entry point of the ledger: decodes `input` as a [`Call`], dispatches
/// it on `ledger` and returns the encoded answer.
pub fn call<L: Ledger>(ledger: &mut L, input: &[u8]) -> (r: Result<Vec<u8>, CallError>)
    ensures
        call_post(old(ledger).state(), input@, final(ledger).state(), answer_bytes(r)),
{
    match Call::deserialize(input) {
        Ok(call) => match dispatch(ledger, call) {
            Ok(bytes) => Ok(bytes),
            Err(e) => Err(CallError::Storage(e)),
        },
        Err(_) => Err(CallError::Decode),
    }
}

} // verus!
