//! Abstract interfaces for the ledger and related types.
//!
//! The abstract ledger interface is the [`Ledger`] trait. What its methods
//! do is stated over the [`LedgerState`].
//!
//! With [`dispatch`] the method corresponding to a given [`Call`] is called
//! on a [`Ledger`] implementation.
pub use crate::call::{Call, CallModel, DecodeError, Query, QueryModel, Update, UpdateModel};
use crate::cbor::uint_item;
use crate::codec::{encode, encodes, list_item, Record};
use crate::hash::keccak256;
pub use crate::project::{AccountId, Project, ProjectId, ProjectModel};
use crate::project::project_item;
use crate::storage::{
    counted, counter_is, counter_key, counter_outcome, lemma_counter_after_set, next_count,
    read_fails, value_is, written, StorageError,
};
use crate::word::be_bytes;
use vstd::prelude::*;
use vstd::utf8::encode_utf8;

verus! {

/// The key under which the identifiers of all registered projects are
/// stored.
pub const PROJECTS_KEY: &'static str = "projects";

/// The key of the list of project identifiers, as bytes.
pub open spec fn projects_key() -> Seq<u8> {
    encode_utf8(PROJECTS_KEY@)
}

/// What a ledger consists of: the words of its store, the account that sent
/// the current call, and the height of the current block.
pub struct LedgerState {
    pub words: Map<Seq<u8>, Seq<u8>>,
    pub sender: Seq<u8>,
    pub block: u64,
}

/// The result of an operation with its value replaced by the value's model.
pub open spec fn answer_of<T: DeepView>(r: Result<T, StorageError>) -> Result<T::V, StorageError> {
    match r {
        Ok(v) => Ok(v.deep_view()),
        Err(e) => Err(e),
    }
}

/// What `counter_value` returns in the state `s`.
#[verifier::opaque]
pub open spec fn counter_value_post(s: LedgerState, r: Result<u32, StorageError>) -> bool {
    counter_outcome(s.words, r)
}

/// What `counter_inc` does to the state `s`: it stores the counter's next
/// value, unless the counter cannot be read.
#[verifier::opaque]
pub open spec fn counter_inc_post(
    s: LedgerState,
    after: LedgerState,
    r: Result<(), StorageError>,
) -> bool {
    &&& after.sender == s.sender
    &&& after.block == s.block
    &&& match r {
        Ok(_) => counted(s.words, after.words),
        Err(e) => read_fails::<u32>(s.words, counter_key(), e) && after.words == s.words,
    }
    &&& forall|n: u32| #[trigger]
        counter_is(s.words, n) ==> r is Ok && after.words == written(
            s.words,
            counter_key(),
            uint_item(next_count(n)),
        )
}

/// The identifier of the project that `creator` registers in the block at
/// height `block`: the first 20 bytes of the hash of the creator and the
/// height.
pub open spec fn project_id_of(creator: Seq<u8>, block: u64) -> Seq<u8> {
    keccak256(creator + be_bytes(block as nat, 8))@.subrange(0, 20)
}

/// The project that `creator` registers with the given texts. Its creator
/// is its only member.
pub open spec fn new_project(
    name: Seq<char>,
    description: Seq<char>,
    img_url: Seq<char>,
    creator: Seq<u8>,
) -> ProjectModel {
    ProjectModel { name, description, img_url, members: seq![creator] }
}

/// Whether the list of the identifiers of all registered projects is `ids`.
/// Where none is stored the list is empty.
pub open spec fn index_is(words: Map<Seq<u8>, Seq<u8>>, ids: Seq<Seq<u8>>) -> bool {
    value_is::<Vec<ProjectId>>(words, projects_key(), Some(ids)) || (ids.len() == 0
        && value_is::<Vec<ProjectId>>(words, projects_key(), None))
}

/// The list `ids` with `id` in it: appended, unless it was there.
pub open spec fn with_id(ids: Seq<Seq<u8>>, id: Seq<u8>) -> Seq<Seq<u8>> {
    if ids.contains(id) {
        ids
    } else {
        ids.push(id)
    }
}

/// The store after the project `p` was registered under `id`: first the
/// list of identifiers is written, then the project.
pub open spec fn registered(
    words: Map<Seq<u8>, Seq<u8>>,
    ids: Seq<Seq<u8>>,
    id: Seq<u8>,
    p: ProjectModel,
) -> Map<Seq<u8>, Seq<u8>> {
    written(
        written(words, projects_key(), list_item::<ProjectId>(with_id(ids, id))),
        id,
        project_item(p),
    )
}

/// What `register_project` does to the state `s`, and what it returns.
#[verifier::opaque]
pub open spec fn register_post(
    s: LedgerState,
    after: LedgerState,
    name: Seq<char>,
    description: Seq<char>,
    img_url: Seq<char>,
    r: Result<Seq<u8>, StorageError>,
) -> bool {
    let id = project_id_of(s.sender, s.block);
    let p = new_project(name, description, img_url, s.sender);
    &&& after.sender == s.sender
    &&& after.block == s.block
    &&& match r {
        Ok(got) => got == id && value_is::<Project>(after.words, id, Some(p)) && exists|
            ids: Seq<Seq<u8>>,
        | #[trigger] index_is(s.words, ids) && after.words == registered(s.words, ids, id, p),
        Err(e) => read_fails::<Vec<ProjectId>>(s.words, projects_key(), e) && after.words
            == s.words,
    }
    &&& forall|ids: Seq<Seq<u8>>| #[trigger]
        index_is(s.words, ids) ==> r == Ok::<Seq<u8>, StorageError>(id) && after.words
            == registered(s.words, ids, id, p)
}

/// What `get_project` returns in the state `s`.
#[verifier::opaque]
pub open spec fn get_project_post(
    s: LedgerState,
    id: Seq<u8>,
    r: Result<Option<ProjectModel>, StorageError>,
) -> bool {
    &&& match r {
        Ok(v) => value_is::<Project>(s.words, id, v),
        Err(e) => read_fails::<Project>(s.words, id, e),
    }
    &&& forall|w: Option<ProjectModel>| #[trigger]
        value_is::<Project>(s.words, id, w) ==> r == Ok::<Option<ProjectModel>, StorageError>(w)
}

/// Whether `projects` are the projects stored under `ids`, one for one.
pub open spec fn listed(
    words: Map<Seq<u8>, Seq<u8>>,
    ids: Seq<Seq<u8>>,
    projects: Seq<ProjectModel>,
) -> bool {
    &&& projects.len() == ids.len()
    &&& forall|i: int|
        0 <= i < ids.len() ==> value_is::<Project>(words, #[trigger] ids[i], Some(projects[i]))
}

/// Whether fetching the project under `id` fails with `e`: either reading
/// fails, or there is no record under a listed identifier.
pub open spec fn project_fails(words: Map<Seq<u8>, Seq<u8>>, id: Seq<u8>, e: StorageError) -> bool {
    read_fails::<Project>(words, id, e) || (e == StorageError::Malformed && value_is::<Project>(
        words,
        id,
        None,
    ))
}

/// Whether fetching the listed projects one after the other fails with `e`:
/// some of them are found, and fetching the next one fails with `e`.
pub open spec fn fetch_fails(words: Map<Seq<u8>, Seq<u8>>, e: StorageError) -> bool {
    exists|ids: Seq<Seq<u8>>, found: Seq<ProjectModel>|
        index_is(words, ids) && found.len() < ids.len() && #[trigger] listed(
            words,
            ids.take(found.len() as int),
            found,
        ) && project_fails(words, ids[found.len() as int], e)
}

/// The projects of `projects`, each of them once: a project that is equal
/// to one before it is left out.
pub open spec fn without_repeats(projects: Seq<ProjectModel>) -> Seq<ProjectModel>
    decreases projects.len(),
{
    if projects.len() == 0 {
        Seq::empty()
    } else {
        let before = without_repeats(projects.drop_last());
        if before.contains(projects.last()) {
            before
        } else {
            before.push(projects.last())
        }
    }
}

/// Whether `projects` is the set of the projects under the identifiers of
/// the list, as `list_projects` gives it: every project once, in the order
/// in which the list names them first.
pub open spec fn lists(words: Map<Seq<u8>, Seq<u8>>, projects: Seq<ProjectModel>) -> bool {
    exists|ids: Seq<Seq<u8>>, found: Seq<ProjectModel>|
        index_is(words, ids) && #[trigger] listed(words, ids, found) && projects
            == without_repeats(found)
}

/// What `list_projects` returns in the state `s`: the set of the projects
/// under the listed identifiers, or the error of the first read that fails.
#[verifier::opaque]
pub open spec fn list_post(s: LedgerState, r: Result<Seq<ProjectModel>, StorageError>) -> bool {
    &&& match r {
        Ok(projects) => lists(s.words, projects),
        Err(e) => read_fails::<Vec<ProjectId>>(s.words, projects_key(), e) || fetch_fails(
            s.words,
            e,
        ),
    }
    &&& forall|ids: Seq<Seq<u8>>, found: Seq<ProjectModel>|
        index_is(s.words, ids) && #[trigger] listed(s.words, ids, found) ==> r == Ok::<
            Seq<ProjectModel>,
            StorageError,
        >(without_repeats(found))
}

/// No project occurs twice in a sequence without repeats.
pub proof fn lemma_without_repeats(projects: Seq<ProjectModel>, i: int, j: int)
    requires
        0 <= i < j < without_repeats(projects).len(),
    ensures
        without_repeats(projects)[i] != without_repeats(projects)[j],
    decreases projects.len(),
{
    if projects.len() > 0 {
        let before = without_repeats(projects.drop_last());
        if j < before.len() {
            lemma_without_repeats(projects.drop_last(), i, j);
        } else {
            assert(!before.contains(projects.last()));
            assert(before[i] != projects.last());
        }
    }
}

/// The number at which a counter stands that started at zero and was
/// incremented `i` times.
pub open spec fn count_after(i: int) -> u32 {
    (i % 0x1_0000_0000) as u32
}

/// An increment of a counter that stands at `n` succeeds and leaves the
/// counter at the number after `n`.
pub proof fn lemma_counter_inc(
    s: LedgerState,
    after: LedgerState,
    r: Result<(), StorageError>,
    n: u32,
)
    requires
        counter_inc_post(s, after, r),
        counter_is(s.words, n),
    ensures
        r is Ok,
        counter_is(after.words, next_count(n)),
{
    reveal(counter_inc_post);
    lemma_counter_after_set(s.words, next_count(n));
}

/// A query of a counter that stands at `n` returns `n`.
pub proof fn lemma_counter_value(s: LedgerState, r: Result<u32, StorageError>, n: u32)
    requires
        counter_value_post(s, r),
        counter_is(s.words, n),
    ensures
        r == Ok::<u32, StorageError>(n),
{
    reveal(counter_value_post);
}

/// A counter that starts at zero stands at `i` after `i` increments, and
/// that is what a query between two increments finds. Beyond the largest
/// number the counter starts again at zero; up to there, every increment
/// makes it larger.
///
/// `states[i]` is the state after `i` increments, `results[i]` is what the
/// increment after it returned, and `observed[i]` is what a query in
/// `states[i]` returned.
pub proof fn lemma_counter_counts_up(
    states: Seq<LedgerState>,
    results: Seq<Result<(), StorageError>>,
    observed: Seq<Result<u32, StorageError>>,
    i: int,
)
    requires
        0 <= i < states.len(),
        results.len() == states.len(),
        observed.len() == states.len(),
        counter_is(states[0].words, 0),
        forall|k: int|
            0 <= k < states.len() - 1 ==> counter_inc_post(
                #[trigger] states[k],
                states[k + 1],
                results[k],
            ),
        forall|k: int|
            0 <= k < states.len() ==> counter_value_post(#[trigger] states[k], observed[k]),
    ensures
        counter_is(states[i].words, count_after(i)),
        observed[i] == Ok::<u32, StorageError>(count_after(i)),
        i > 0 ==> results[i - 1] is Ok,
        0 < i <= u32::MAX ==> count_after(i - 1) < count_after(i),
    decreases i,
{
    if i > 0 {
        lemma_counter_counts_up(states, results, observed, i - 1);
        assert(counter_inc_post(states[i - 1], states[i], results[i - 1]));
        lemma_counter_inc(states[i - 1], states[i], results[i - 1], count_after(i - 1));
        assert(next_count(count_after(i - 1)) == count_after(i));
    }
    assert(counter_value_post(states[i], observed[i]));
    lemma_counter_value(states[i], observed[i], count_after(i));
}

/// A project that was registered is found under the identifier that the
/// registration returned, with the texts that were given and with the
/// sender of the registration as its only member.
pub proof fn lemma_registered_project_is_found(
    s: LedgerState,
    after: LedgerState,
    name: Seq<char>,
    description: Seq<char>,
    img_url: Seq<char>,
    id: Seq<u8>,
    found: Result<Option<ProjectModel>, StorageError>,
)
    requires
        register_post(s, after, name, description, img_url, Ok(id)),
        get_project_post(after, id, found),
    ensures
        id == project_id_of(s.sender, s.block),
        found == Ok::<Option<ProjectModel>, StorageError>(
            Some(new_project(name, description, img_url, s.sender)),
        ),
{
    reveal(register_post);
    reveal(get_project_post);
}

/// Public interface of the ledger.
///
/// Every operation is stated over the state of the ledger. Queries leave it
/// as it is.
pub trait Ledger {
    /// The state of the ledger.
    spec fn state(&self) -> LedgerState;

    /// Answers "pong".
    fn ping(&mut self) -> (pong: String)
        ensures
            pong@ == "pong"@,
            final(self).state() == old(self).state(),
    ;

    /// Adds one to the counter.
    fn counter_inc(&mut self) -> (r: Result<(), StorageError>)
        ensures
            counter_inc_post(old(self).state(), final(self).state(), r),
    ;

    /// The value of the counter.
    fn counter_value(&mut self) -> (r: Result<u32, StorageError>)
        ensures
            final(self).state() == old(self).state(),
            counter_value_post(old(self).state(), r),
    ;

    /// Registers a project on behalf of the sender of the call and returns
    /// the new project's identifier.
    fn register_project(&mut self, name: String, description: String, img_url: String) -> (r:
        Result<ProjectId, StorageError>)
        ensures
            register_post(
                old(self).state(),
                final(self).state(),
                name@,
                description@,
                img_url@,
                answer_of(r),
            ),
    ;

    /// The project that is registered under `project_id`, if there is one.
    fn get_project(&mut self, project_id: ProjectId) -> (r: Result<Option<Project>, StorageError>)
        ensures
            final(self).state() == old(self).state(),
            get_project_post(old(self).state(), project_id.deep_view(), answer_of(r)),
    ;

    /// All registered projects, each of them once, in the order of their
    /// registration.
    fn list_projects(&mut self) -> (r: Result<Vec<Project>, StorageError>)
        ensures
            final(self).state() == old(self).state(),
            list_post(old(self).state(), answer_of(r)),
    ;
}

/// Whether the bytes `r` are the encoding of the answer `v`, or the error
/// that `v` is.
pub open spec fn answers<T: Record>(
    r: Result<Seq<u8>, StorageError>,
    v: Result<T::V, StorageError>,
) -> bool {
    match v {
        Ok(x) => r matches Ok(bytes) && encodes::<T>(bytes, x),
        Err(e) => r == Err::<Seq<u8>, StorageError>(e),
    }
}

/// Whether `r` is the encoded answer of `get_project` in the state `s`.
pub open spec fn get_project_answer(
    s: LedgerState,
    project_id: Seq<u8>,
    r: Result<Seq<u8>, StorageError>,
) -> bool {
    exists|v: Result<Option<ProjectModel>, StorageError>| #[trigger]
        get_project_post(s, project_id, v) && answers::<Option<Project>>(r, v)
}

/// Whether `r` is the encoded answer of `register_project`, which took the
/// state `s` to the state `after`.
pub open spec fn register_answer(
    s: LedgerState,
    after: LedgerState,
    name: Seq<char>,
    description: Seq<char>,
    img_url: Seq<char>,
    r: Result<Seq<u8>, StorageError>,
) -> bool {
    exists|v: Result<Seq<u8>, StorageError>| #[trigger]
        register_post(s, after, name, description, img_url, v) && answers::<ProjectId>(r, v)
}

/// What dispatching the query `query` returns in the state `s`: the
/// encoding of what the one operation that the query names returns.
pub open spec fn query_post(
    s: LedgerState,
    query: QueryModel,
    r: Result<Seq<u8>, StorageError>,
) -> bool {
    match query {
        QueryModel::Ping => answers::<String>(r, Ok("pong"@)),
        QueryModel::CounterValue => exists|v: Result<u32, StorageError>| #[trigger]
            counter_value_post(s, v) && answers::<u32>(r, v),
        QueryModel::GetProject { project_id } => get_project_answer(s, project_id, r),
        QueryModel::ListProjects => exists|v: Result<Seq<ProjectModel>, StorageError>| #[trigger]
            list_post(s, v) && answers::<Vec<Project>>(r, v),
    }
}

/// What dispatching the update `update` does to the state `s`, and what it
/// returns: the effect of the one operation that the update names, and the
/// encoding of what that operation returns.
pub open spec fn update_post(
    s: LedgerState,
    update: UpdateModel,
    after: LedgerState,
    r: Result<Seq<u8>, StorageError>,
) -> bool {
    match update {
        UpdateModel::CounterInc => exists|v: Result<(), StorageError>| #[trigger]
            counter_inc_post(s, after, v) && answers::<()>(r, v),
        UpdateModel::RegisterProject { name, description, img_url } => register_answer(
            s,
            after,
            name,
            description,
            img_url,
            r,
        ),
    }
}

/// What dispatching `call` does to the state `s`, and what it returns. A
/// query leaves the state as it is.
pub open spec fn dispatch_post(
    s: LedgerState,
    call: CallModel,
    after: LedgerState,
    r: Result<Seq<u8>, StorageError>,
) -> bool {
    match call {
        CallModel::Query(query) => after == s && query_post(s, query, r),
        CallModel::Update(update) => update_post(s, update, after, r),
    }
}

/// The encoding of the answer `v`, or the error that `v` is.
fn answer<T: Record>(v: Result<T, StorageError>) -> (r: Result<Vec<u8>, StorageError>)
    ensures
        answers::<T>(bytes_of(r), answer_of(v)),
{
    match v {
        Ok(value) => Ok(encode(&value)),
        Err(e) => Err(e),
    }
}

/// The result of a dispatch with its bytes replaced by their view.
pub open spec fn bytes_of(r: Result<Vec<u8>, StorageError>) -> Result<Seq<u8>, StorageError> {
    match r {
        Ok(bytes) => Ok(bytes@),
        Err(e) => Err(e),
    }
}

/// Calls the `ledger`'s method corresponding to `call` and returns the
/// encoded result of the method call.
pub fn dispatch<L: Ledger>(ledger: &mut L, call: Call) -> (r: Result<Vec<u8>, StorageError>)
    ensures
        dispatch_post(old(ledger).state(), call.deep_view(), final(ledger).state(), bytes_of(r)),
{
    let ghost s = ledger.state();
    let ghost model = call.deep_view();
    match call {
        Call::Query(query) => match query {
            Query::Ping => {
                let pong = ledger.ping();
                let r = answer::<String>(Ok(pong));
                proof {
                    assert(dispatch_post(s, model, ledger.state(), bytes_of(r)));
                    assert(dispatch_post(s, model, ledger.state(), bytes_of(r)));
                }
                r
            },
            Query::CounterValue => {
                let v = ledger.counter_value();
                let r = answer::<u32>(v);
                proof {
                    assert(counter_value_post(s, answer_of(v)) && answers::<u32>(
                        bytes_of(r),
                        answer_of(v),
                    ));
                    assert(dispatch_post(s, model, ledger.state(), bytes_of(r)));
                }
                r
            },
            Query::GetProject { project_id } => {
                let v = ledger.get_project(project_id);
                let r = answer::<Option<Project>>(v);
                proof {
                    assert(get_project_post(s, project_id.deep_view(), answer_of(v))
                        && answers::<Option<Project>>(bytes_of(r), answer_of(v)));
                    assert(get_project_answer(s, project_id.deep_view(), bytes_of(r)));
                    assert(dispatch_post(s, model, ledger.state(), bytes_of(r)));
                }
                r
            },
            Query::ListProjects => {
                let v = ledger.list_projects();
                let r = answer::<Vec<Project>>(v);
                proof {
                    assert(list_post(s, answer_of(v)) && answers::<Vec<Project>>(
                        bytes_of(r),
                        answer_of(v),
                    ));
                    assert(dispatch_post(s, model, ledger.state(), bytes_of(r)));
                }
                r
            },
        },
        Call::Update(update) => match update {
            Update::CounterInc => {
                let v = ledger.counter_inc();
                let r = answer::<()>(v);
                proof {
                    assert(counter_inc_post(s, ledger.state(), answer_of(v)) && answers::<()>(
                        bytes_of(r),
                        answer_of(v),
                    ));
                    assert(dispatch_post(s, model, ledger.state(), bytes_of(r)));
                }
                r
            },
            Update::RegisterProject { name, description, img_url } => {
                let ghost n = name@;
                let ghost d = description@;
                let ghost i = img_url@;
                let v = ledger.register_project(name, description, img_url);
                let r = answer::<ProjectId>(v);
                proof {
                    assert(register_post(s, ledger.state(), n, d, i, answer_of(v))
                        && answers::<ProjectId>(bytes_of(r), answer_of(v)));
                    assert(register_answer(s, ledger.state(), n, d, i, bytes_of(r)));
                    assert(dispatch_post(s, model, ledger.state(), bytes_of(r)));
                }
                r
            },
        },
    }
}

} // verus!
