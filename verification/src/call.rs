//! Calls to the ledger, as values and as bytes.
//!
//! Calls to the ledger are reified in the [`Call`] enum: each method of the
//! ledger has a corresponding [`Query`] or [`Update`] constructor.
use crate::cbor::{
    expect_text, head, lemma_first_byte, lemma_head_shape, lemma_starts_at_concat,
    lemma_text_unique, read_head, read_text, starts_at, text_fits, text_is, text_item,
    write_head, write_text, MAJOR_MAP, MAJOR_TEXT,
};
use crate::codec::{decode, encode, encodes, id_item, Record};
use crate::project::{
    lemma_texts_unique, read_texts, texts_fit, texts_item, write_texts, ProjectId,
};
use vstd::prelude::*;
use vstd::utf8::{encode_utf8, is_ascii_chars, is_ascii_chars_encode_utf8};

verus! {

/// The start of an enum variant that carries data: a map of one entry, and
/// the variant's name as its key.
pub open spec fn variant_head(name: Seq<char>) -> Seq<u8> {
    head(MAJOR_MAP, 1) + text_item(name)
}

/// Appends the start of an enum variant that carries data.
fn write_variant(out: &mut Vec<u8>, name: &str)
    ensures
        text_fits(name@),
        final(out)@ == old(out)@ + variant_head(name@),
{
    let ghost before = out@;
    write_head(out, MAJOR_MAP, 1);
    write_text(out, name);
    proof {
        assert(out@ =~= before + variant_head(name@));
    }
}

/// Looks for the start of the variant `name` at `pos` and gives the position
/// behind it.
fn expect_variant(bytes: &[u8], pos: usize, name: &str) -> (r: Option<usize>)
    ensures
        r is Some <==> starts_at(bytes@, pos as int, variant_head(name@)),
        r matches Some(next) ==> next == pos + variant_head(name@).len(),
{
    proof {
        lemma_starts_at_concat(bytes@, pos as int, head(MAJOR_MAP, 1), text_item(name@));
    }
    match read_head(bytes, pos) {
        Some((major, n, next)) => {
            if major == MAJOR_MAP && n == 1 {
                expect_text(bytes, next, name)
            } else {
                None
            }
        },
        None => None,
    }
}

/// Reads the start of a variant that carries data, and gives the variant's
/// name with the position behind it.
fn read_variant(bytes: &[u8], pos: usize) -> (r: Option<(String, usize)>)
    ensures
        r matches Some((s, next)) ==> text_fits(s@) && starts_at(
            bytes@,
            pos as int,
            variant_head(s@),
        ) && next == pos + variant_head(s@).len(),
        forall|t: Seq<char>|
            text_fits(t) && #[trigger] starts_at(bytes@, pos as int, variant_head(t)) ==> (
            r matches Some((s, next)) && s@ == t && next == pos + variant_head(t).len()),
{
    proof {
        assert forall|t: Seq<char>| #[trigger]
            starts_at(bytes@, pos as int, variant_head(t)) <==> starts_at(
                bytes@,
                pos as int,
                head(MAJOR_MAP, 1),
            ) && starts_at(bytes@, pos + head(MAJOR_MAP, 1).len(), text_item(t)) by {
            lemma_starts_at_concat(bytes@, pos as int, head(MAJOR_MAP, 1), text_item(t));
        }
    }
    match read_head(bytes, pos) {
        Some((major, n, next)) => {
            if major == MAJOR_MAP && n == 1 {
                read_text(bytes, next)
            } else {
                None
            }
        },
        None => None,
    }
}

/// The names of the variants are plain ASCII, so they can be written, and
/// the names among which a reader has to choose differ.
pub proof fn lemma_variant_names()
    ensures
        text_fits("Ping"@),
        text_fits("CounterValue"@),
        text_fits("ListProjects"@),
        text_fits("CounterInc"@),
        text_fits("Query"@),
        text_fits("Update"@),
        "Ping"@ != "CounterValue"@,
        "Ping"@ != "ListProjects"@,
        "CounterValue"@ != "ListProjects"@,
        "Query"@ != "Update"@,
{
    reveal_strlit("Ping");
    reveal_strlit("CounterValue");
    reveal_strlit("ListProjects");
    reveal_strlit("CounterInc");
    reveal_strlit("Query");
    reveal_strlit("Update");
    assert(is_ascii_chars("Ping"@));
    assert(is_ascii_chars("CounterValue"@));
    assert(is_ascii_chars("ListProjects"@));
    assert(is_ascii_chars("CounterInc"@));
    assert(is_ascii_chars("Query"@));
    assert(is_ascii_chars("Update"@));
    is_ascii_chars_encode_utf8("Ping"@);
    is_ascii_chars_encode_utf8("CounterValue"@);
    is_ascii_chars_encode_utf8("ListProjects"@);
    is_ascii_chars_encode_utf8("CounterInc"@);
    is_ascii_chars_encode_utf8("Query"@);
    is_ascii_chars_encode_utf8("Update"@);
    assert("CounterValue"@[0] != "ListProjects"@[0]);
}

/// Reified non-mutating call to the ledger.
///
/// Each [`Query`] corresponds to a method on [`Ledger`].
#[derive(Debug, Clone, PartialEq, Eq)]
pub enum Query {
    Ping,
    CounterValue,
    GetProject { project_id: ProjectId },
    ListProjects,
}

/// What a [`Query`] holds, as mathematical values.
pub enum QueryModel {
    Ping,
    CounterValue,
    GetProject { project_id: Seq<u8> },
    ListProjects,
}

impl DeepView for Query {
    type V = QueryModel;

    open spec fn deep_view(&self) -> QueryModel {
        match self {
            Query::Ping => QueryModel::Ping,
            Query::CounterValue => QueryModel::CounterValue,
            Query::GetProject { project_id } => QueryModel::GetProject {
                project_id: project_id.deep_view(),
            },
            Query::ListProjects => QueryModel::ListProjects,
        }
    }
}

/// A query, as it is written. A variant without data is its name. A
/// variant with data is a map from its name to a map of its fields.
pub open spec fn query_item(q: QueryModel) -> Seq<u8> {
    match q {
        QueryModel::Ping => text_item("Ping"@),
        QueryModel::CounterValue => text_item("CounterValue"@),
        QueryModel::GetProject { project_id } => variant_head("GetProject"@) + variant_head(
            "project_id"@,
        ) + id_item(project_id),
        QueryModel::ListProjects => text_item("ListProjects"@),
    }
}

/// The name of a query without data.
pub open spec fn query_name(q: QueryModel) -> Seq<char> {
    match q {
        QueryModel::Ping => "Ping"@,
        QueryModel::CounterValue => "CounterValue"@,
        QueryModel::ListProjects => "ListProjects"@,
        QueryModel::GetProject { .. } => "GetProject"@,
    }
}

/// Whether a query can be written.
pub open spec fn query_fits(q: QueryModel) -> bool {
    match q {
        QueryModel::GetProject { project_id } => project_id.len() == 20,
        _ => true,
    }
}

/// What stands where, if a query stands at `pos`.
proof fn lemma_query_parts(bytes: Seq<u8>, pos: int, w: QueryModel)
    ensures
        starts_at(bytes, pos, query_item(w)) <==> match w {
            QueryModel::Ping => starts_at(bytes, pos, text_item("Ping"@)),
            QueryModel::CounterValue => starts_at(bytes, pos, text_item("CounterValue"@)),
            QueryModel::ListProjects => starts_at(bytes, pos, text_item("ListProjects"@)),
            QueryModel::GetProject { project_id } => starts_at(
                bytes,
                pos,
                variant_head("GetProject"@),
            ) && starts_at(
                bytes,
                pos + variant_head("GetProject"@).len(),
                variant_head("project_id"@),
            ) && starts_at(
                bytes,
                pos + variant_head("GetProject"@).len() + variant_head("project_id"@).len(),
                <ProjectId as Record>::item(project_id),
            ),
        },
        starts_at(bytes, pos, query_item(w)) ==> pos < bytes.len() && (bytes[pos] / 32
            == MAJOR_MAP <==> w is GetProject) && (bytes[pos] / 32 == MAJOR_TEXT <==> !(
        w is GetProject)),
{
    match w {
        QueryModel::GetProject { project_id } => {
            let a = variant_head("GetProject"@);
            let b = variant_head("project_id"@);
            let c = id_item(project_id);
            lemma_starts_at_concat(bytes, pos, a + b, c);
            lemma_starts_at_concat(bytes, pos, a, b);
            if starts_at(bytes, pos, query_item(w)) {
                let rest = text_item("GetProject"@) + b + c;
                assert(query_item(w) =~= head(MAJOR_MAP, 1) + rest);
                lemma_first_byte(bytes, pos, MAJOR_MAP, 1, rest);
            }
        },
        QueryModel::Ping => {
            if starts_at(bytes, pos, query_item(w)) {
                let t = encode_utf8("Ping"@);
                lemma_first_byte(bytes, pos, MAJOR_TEXT, t.len() as u64, t);
            }
        },
        QueryModel::CounterValue => {
            if starts_at(bytes, pos, query_item(w)) {
                let t = encode_utf8("CounterValue"@);
                lemma_first_byte(bytes, pos, MAJOR_TEXT, t.len() as u64, t);
            }
        },
        QueryModel::ListProjects => {
            if starts_at(bytes, pos, query_item(w)) {
                let t = encode_utf8("ListProjects"@);
                lemma_first_byte(bytes, pos, MAJOR_TEXT, t.len() as u64, t);
            }
        },
    }
}

impl Record for Query {
    open spec fn fits(v: QueryModel) -> bool {
        query_fits(v)
    }

    open spec fn item(v: QueryModel) -> Seq<u8> {
        query_item(v)
    }

    proof fn lemma_unique(bytes: Seq<u8>, pos: int, v: QueryModel, w: QueryModel) {
        lemma_variant_names();
        lemma_query_parts(bytes, pos, v);
        lemma_query_parts(bytes, pos, w);
        match (v, w) {
            (
                QueryModel::GetProject { project_id: a },
                QueryModel::GetProject { project_id: b },
            ) => {
                let at_id = pos + variant_head("GetProject"@).len() + variant_head(
                    "project_id"@,
                ).len();
                <ProjectId as Record>::lemma_unique(bytes, at_id, a, b);
            },
            (QueryModel::GetProject { .. }, _) => {},
            (_, QueryModel::GetProject { .. }) => {},
            _ => {
                lemma_text_unique(bytes, pos, query_name(v), query_name(w));
            },
        }
    }

    fn write(&self, out: &mut Vec<u8>) {
        let ghost before = out@;
        match self {
            Query::Ping => {
                write_text(out, "Ping");
            },
            Query::CounterValue => {
                write_text(out, "CounterValue");
            },
            Query::GetProject { project_id } => {
                write_variant(out, "GetProject");
                write_variant(out, "project_id");
                project_id.write(out);
                proof {
                    assert(out@ =~= before + query_item(self.deep_view()));
                }
            },
            Query::ListProjects => {
                write_text(out, "ListProjects");
            },
        }
    }

    fn read(bytes: &[u8], pos: usize) -> (r: Option<(Query, usize)>) {
        proof {
            lemma_variant_names();
            assert forall|w: QueryModel| #[trigger]
                starts_at(bytes@, pos as int, query_item(w)) implies query_parts_here(
                bytes@,
                pos as int,
                w,
            ) by {
                lemma_query_parts(bytes@, pos as int, w);
            }
        }
        if pos >= bytes.len() {
            return None;
        }
        let major = bytes[pos] / 32;
        if major == MAJOR_TEXT {
            match read_text(bytes, pos) {
                Some((name, end)) => {
                    if text_is(&name, "Ping") {
                        Some((Query::Ping, end))
                    } else if text_is(&name, "CounterValue") {
                        Some((Query::CounterValue, end))
                    } else if text_is(&name, "ListProjects") {
                        Some((Query::ListProjects, end))
                    } else {
                        None
                    }
                },
                None => None,
            }
        } else if major == MAJOR_MAP {
            let at_field = match expect_variant(bytes, pos, "GetProject") {
                Some(next) => next,
                None => {
                    return None;
                },
            };
            let at_id = match expect_variant(bytes, at_field, "project_id") {
                Some(next) => next,
                None => {
                    return None;
                },
            };
            match <ProjectId as Record>::read(bytes, at_id) {
                Some((project_id, end)) => {
                    let query = Query::GetProject { project_id };
                    proof {
                        lemma_query_parts(bytes@, pos as int, query.deep_view());
                    }
                    Some((query, end))
                },
                None => None,
            }
        } else {
            None
        }
    }
}

/// The facts of `lemma_query_parts`, as a predicate.
pub open spec fn query_parts_here(bytes: Seq<u8>, pos: int, w: QueryModel) -> bool {
    &&& pos < bytes.len()
    &&& bytes[pos] / 32 == MAJOR_MAP <==> w is GetProject
    &&& bytes[pos] / 32 == MAJOR_TEXT <==> !(w is GetProject)
    &&& match w {
        QueryModel::Ping => starts_at(bytes, pos, text_item("Ping"@)),
        QueryModel::CounterValue => starts_at(bytes, pos, text_item("CounterValue"@)),
        QueryModel::ListProjects => starts_at(bytes, pos, text_item("ListProjects"@)),
        QueryModel::GetProject { project_id } => starts_at(
            bytes,
            pos,
            variant_head("GetProject"@),
        ) && starts_at(
            bytes,
            pos + variant_head("GetProject"@).len(),
            variant_head("project_id"@),
        ) && starts_at(
            bytes,
            pos + variant_head("GetProject"@).len() + variant_head("project_id"@).len(),
            <ProjectId as Record>::item(project_id),
        ),
    }
}

/// Reified update to the ledger.
///
/// Each [`Update`] corresponds to a method on [`Ledger`].
#[derive(Debug, Clone, PartialEq, Eq)]
pub enum Update {
    CounterInc,
    RegisterProject { name: String, description: String, img_url: String },
}

/// What an [`Update`] holds, as mathematical values.
pub enum UpdateModel {
    CounterInc,
    RegisterProject { name: Seq<char>, description: Seq<char>, img_url: Seq<char> },
}

impl DeepView for Update {
    type V = UpdateModel;

    open spec fn deep_view(&self) -> UpdateModel {
        match self {
            Update::CounterInc => UpdateModel::CounterInc,
            Update::RegisterProject { name, description, img_url } => UpdateModel::RegisterProject {
                name: name@,
                description: description@,
                img_url: img_url@,
            },
        }
    }
}

/// An update, as it is written.
pub open spec fn update_item(u: UpdateModel) -> Seq<u8> {
    match u {
        UpdateModel::CounterInc => text_item("CounterInc"@),
        UpdateModel::RegisterProject { name, description, img_url } => variant_head(
            "RegisterProject"@,
        ) + head(MAJOR_MAP, 3) + texts_item(name, description, img_url),
    }
}

/// Whether an update can be written.
pub open spec fn update_fits(u: UpdateModel) -> bool {
    match u {
        UpdateModel::CounterInc => true,
        UpdateModel::RegisterProject { name, description, img_url } => texts_fit(
            name,
            description,
            img_url,
        ),
    }
}

/// What stands where, if the update `w` stands in `bytes` at `pos`.
pub open spec fn update_parts_here(bytes: Seq<u8>, pos: int, w: UpdateModel) -> bool {
    &&& pos < bytes.len()
    &&& bytes[pos] / 32 == MAJOR_MAP <==> w is RegisterProject
    &&& bytes[pos] / 32 == MAJOR_TEXT <==> w is CounterInc
    &&& match w {
        UpdateModel::CounterInc => starts_at(bytes, pos, text_item("CounterInc"@)),
        UpdateModel::RegisterProject { name, description, img_url } => starts_at(
            bytes,
            pos,
            variant_head("RegisterProject"@),
        ) && starts_at(
            bytes,
            pos + variant_head("RegisterProject"@).len(),
            head(MAJOR_MAP, 3),
        ) && starts_at(
            bytes,
            pos + variant_head("RegisterProject"@).len() + head(MAJOR_MAP, 3).len(),
            texts_item(name, description, img_url),
        ),
    }
}

/// What stands where, if an update stands at `pos`.
proof fn lemma_update_parts(bytes: Seq<u8>, pos: int, w: UpdateModel)
    ensures
        starts_at(bytes, pos, update_item(w)) ==> update_parts_here(bytes, pos, w),
        w matches UpdateModel::RegisterProject { name, description, img_url } ==> (
        update_parts_here(bytes, pos, w) ==> starts_at(bytes, pos, update_item(w))),
{
    match w {
        UpdateModel::RegisterProject { name, description, img_url } => {
            let a = variant_head("RegisterProject"@);
            let b = head(MAJOR_MAP, 3);
            let c = texts_item(name, description, img_url);
            lemma_starts_at_concat(bytes, pos, a + b, c);
            lemma_starts_at_concat(bytes, pos, a, b);
            if starts_at(bytes, pos, update_item(w)) {
                let rest = text_item("RegisterProject"@) + b + c;
                assert(update_item(w) =~= head(MAJOR_MAP, 1) + rest);
                lemma_first_byte(bytes, pos, MAJOR_MAP, 1, rest);
            }
        },
        UpdateModel::CounterInc => {
            if starts_at(bytes, pos, update_item(w)) {
                let t = encode_utf8("CounterInc"@);
                lemma_first_byte(bytes, pos, MAJOR_TEXT, t.len() as u64, t);
            }
        },
    }
}

impl Record for Update {
    open spec fn fits(v: UpdateModel) -> bool {
        update_fits(v)
    }

    open spec fn item(v: UpdateModel) -> Seq<u8> {
        update_item(v)
    }

    proof fn lemma_unique(bytes: Seq<u8>, pos: int, v: UpdateModel, w: UpdateModel) {
        lemma_update_parts(bytes, pos, v);
        lemma_update_parts(bytes, pos, w);
        match (v, w) {
            (
                UpdateModel::RegisterProject { name: n1, description: d1, img_url: i1 },
                UpdateModel::RegisterProject { name: n2, description: d2, img_url: i2 },
            ) => {
                let at_texts = pos + variant_head("RegisterProject"@).len() + head(
                    MAJOR_MAP,
                    3,
                ).len();
                lemma_texts_unique(bytes, at_texts, n1, d1, i1, n2, d2, i2);
            },
            _ => {},
        }
    }

    fn write(&self, out: &mut Vec<u8>) {
        let ghost before = out@;
        match self {
            Update::CounterInc => {
                write_text(out, "CounterInc");
            },
            Update::RegisterProject { name, description, img_url } => {
                write_variant(out, "RegisterProject");
                write_head(out, MAJOR_MAP, 3);
                write_texts(out, name.as_str(), description.as_str(), img_url.as_str());
                proof {
                    assert(out@ =~= before + update_item(self.deep_view()));
                }
            },
        }
    }

    fn read(bytes: &[u8], pos: usize) -> (r: Option<(Update, usize)>) {
        proof {
            lemma_variant_names();
            assert forall|w: UpdateModel| #[trigger]
                starts_at(bytes@, pos as int, update_item(w)) implies update_parts_here(
                bytes@,
                pos as int,
                w,
            ) by {
                lemma_update_parts(bytes@, pos as int, w);
            }
        }
        if pos >= bytes.len() {
            return None;
        }
        let major = bytes[pos] / 32;
        if major == MAJOR_TEXT {
            match expect_text(bytes, pos, "CounterInc") {
                Some(end) => Some((Update::CounterInc, end)),
                None => None,
            }
        } else if major == MAJOR_MAP {
            let at_fields = match expect_variant(bytes, pos, "RegisterProject") {
                Some(next) => next,
                None => {
                    return None;
                },
            };
            let at_texts = match read_head(bytes, at_fields) {
                Some((major, n, next)) => {
                    if major == MAJOR_MAP && n == 3 {
                        next
                    } else {
                        return None;
                    }
                },
                None => {
                    return None;
                },
            };
            match read_texts(bytes, at_texts) {
                Some((name, description, img_url, end)) => {
                    let update = Update::RegisterProject { name, description, img_url };
                    proof {
                        lemma_update_parts(bytes@, pos as int, update.deep_view());
                    }
                    Some((update, end))
                },
                None => None,
            }
        } else {
            None
        }
    }
}

/// Represents a call to a ledger method. Either a [`Query`] or an
/// [`Update`].
///
/// Calls are turned into bytes with [`Call::serialize`] and back with
/// [`Call::deserialize`].
#[derive(Debug, Clone, PartialEq, Eq)]
pub enum Call {
    Query(Query),
    Update(Update),
}

/// What a [`Call`] holds, as mathematical values.
pub enum CallModel {
    Query(QueryModel),
    Update(UpdateModel),
}

impl DeepView for Call {
    type V = CallModel;

    open spec fn deep_view(&self) -> CallModel {
        match self {
            Call::Query(query) => CallModel::Query(query.deep_view()),
            Call::Update(update) => CallModel::Update(update.deep_view()),
        }
    }
}

/// A call, as it is written: a map from the name of the family to the
/// query or update.
pub open spec fn call_item(c: CallModel) -> Seq<u8> {
    match c {
        CallModel::Query(q) => variant_head("Query"@) + query_item(q),
        CallModel::Update(u) => variant_head("Update"@) + update_item(u),
    }
}

/// The name of the family of a call.
pub open spec fn call_family(c: CallModel) -> Seq<char> {
    match c {
        CallModel::Query(_) => "Query"@,
        CallModel::Update(_) => "Update"@,
    }
}

/// Where the parts of a call stand, if the call stands at `pos`.
proof fn lemma_call_parts(bytes: Seq<u8>, pos: int, c: CallModel)
    requires
        starts_at(bytes, pos, call_item(c)),
    ensures
        starts_at(bytes, pos + head(MAJOR_MAP, 1).len(), text_item(call_family(c))),
        match c {
            CallModel::Query(q) => starts_at(
                bytes,
                pos + variant_head("Query"@).len(),
                <Query as Record>::item(q),
            ),
            CallModel::Update(u) => starts_at(
                bytes,
                pos + variant_head("Update"@).len(),
                <Update as Record>::item(u),
            ),
        },
{
    match c {
        CallModel::Query(q) => {
            lemma_starts_at_concat(bytes, pos, variant_head("Query"@), query_item(q));
        },
        CallModel::Update(u) => {
            lemma_starts_at_concat(bytes, pos, variant_head("Update"@), update_item(u));
        },
    }
    lemma_starts_at_concat(bytes, pos, head(MAJOR_MAP, 1), text_item(call_family(c)));
}

/// Whether a call can be written.
pub open spec fn call_fits(c: CallModel) -> bool {
    match c {
        CallModel::Query(q) => query_fits(q),
        CallModel::Update(u) => update_fits(u),
    }
}

impl Record for Call {
    open spec fn fits(v: CallModel) -> bool {
        call_fits(v)
    }

    open spec fn item(v: CallModel) -> Seq<u8> {
        call_item(v)
    }

    proof fn lemma_unique(bytes: Seq<u8>, pos: int, v: CallModel, w: CallModel) {
        lemma_variant_names();
        let family_v = call_family(v);
        let family_w = call_family(w);
        lemma_call_parts(bytes, pos, v);
        lemma_call_parts(bytes, pos, w);
        lemma_text_unique(bytes, pos + head(MAJOR_MAP, 1).len(), family_v, family_w);
        let at_body = pos + variant_head(family_v).len();
        match (v, w) {
            (CallModel::Query(a), CallModel::Query(b)) => {
                <Query as Record>::lemma_unique(bytes, at_body, a, b);
            },
            (CallModel::Update(a), CallModel::Update(b)) => {
                <Update as Record>::lemma_unique(bytes, at_body, a, b);
            },
            _ => {},
        }
    }

    fn write(&self, out: &mut Vec<u8>) {
        let ghost before = out@;
        match self {
            Call::Query(query) => {
                write_variant(out, "Query");
                query.write(out);
                proof {
                    assert(out@ =~= before + call_item(self.deep_view()));
                }
            },
            Call::Update(update) => {
                write_variant(out, "Update");
                update.write(out);
                proof {
                    assert(out@ =~= before + call_item(self.deep_view()));
                }
            },
        }
    }

    fn read(bytes: &[u8], pos: usize) -> (r: Option<(Call, usize)>) {
        proof {
            lemma_variant_names();
            assert forall|w: CallModel| #[trigger]
                starts_at(bytes@, pos as int, call_item(w)) implies match w {
                CallModel::Query(q) => starts_at(bytes@, pos as int, variant_head("Query"@))
                    && starts_at(
                    bytes@,
                    pos + variant_head("Query"@).len(),
                    <Query as Record>::item(q),
                ),
                CallModel::Update(u) => starts_at(bytes@, pos as int, variant_head("Update"@))
                    && starts_at(
                    bytes@,
                    pos + variant_head("Update"@).len(),
                    <Update as Record>::item(u),
                ),
            } by {
                match w {
                    CallModel::Query(q) => {
                        lemma_starts_at_concat(
                            bytes@,
                            pos as int,
                            variant_head("Query"@),
                            query_item(q),
                        );
                    },
                    CallModel::Update(u) => {
                        lemma_starts_at_concat(
                            bytes@,
                            pos as int,
                            variant_head("Update"@),
                            update_item(u),
                        );
                    },
                }
            }
        }
        let (family, at_body) = match read_variant(bytes, pos) {
            Some(variant) => variant,
            None => {
                return None;
            },
        };
        if text_is(&family, "Query") {
            match Query::read(bytes, at_body) {
                Some((query, end)) => {
                    proof {
                        lemma_starts_at_concat(
                            bytes@,
                            pos as int,
                            variant_head("Query"@),
                            query_item(query.deep_view()),
                        );
                    }
                    Some((Call::Query(query), end))
                },
                None => None,
            }
        } else if text_is(&family, "Update") {
            match Update::read(bytes, at_body) {
                Some((update, end)) => {
                    proof {
                        lemma_starts_at_concat(
                            bytes@,
                            pos as int,
                            variant_head("Update"@),
                            update_item(update.deep_view()),
                        );
                    }
                    Some((Call::Update(update), end))
                },
                None => None,
            }
        } else {
            None
        }
    }
}

impl Call {
    /// The bytes that stand for the call.
    pub fn serialize(&self) -> (bytes: Vec<u8>)
        ensures
            encodes::<Call>(bytes@, self.deep_view()),
    {
        encode(self)
    }

    /// The call that `data` stands for. Fails where `data` is not the
    /// encoding of a call, as it is where `data` is empty.
    pub fn deserialize(data: &[u8]) -> (r: Result<Call, DecodeError>)
        ensures
            r matches Ok(call) ==> encodes::<Call>(data@, call.deep_view()),
            forall|w: CallModel| #[trigger]
                encodes::<Call>(data@, w) ==> (r matches Ok(call) && call.deep_view() == w),
            data@.len() == 0 ==> r is Err,
    {
        proof {
            assert forall|w: CallModel| call_item(w).len() > 0 by {
                lemma_head_shape(MAJOR_MAP, 1);
            }
        }
        match decode::<Call>(data) {
            Some(call) => Ok(call),
            None => Err(DecodeError),
        }
    }
}

/// The error of [`Call::deserialize`]: the bytes are not the encoding of a
/// call.
#[derive(Debug, Clone, Copy, PartialEq, Eq, Structural)]
pub struct DecodeError;

impl From<Query> for Call {
    fn from(query: Query) -> (call: Call) {
        Call::Query(query)
    }
}

impl vstd::std_specs::convert::FromSpecImpl<Query> for Call {
    open spec fn obeys_from_spec() -> bool {
        true
    }

    open spec fn from_spec(query: Query) -> Call {
        Call::Query(query)
    }
}

impl From<Update> for Call {
    fn from(update: Update) -> (call: Call) {
        Call::Update(update)
    }
}

impl vstd::std_specs::convert::FromSpecImpl<Update> for Call {
    open spec fn obeys_from_spec() -> bool {
        true
    }

    open spec fn from_spec(update: Update) -> Call {
        Call::Update(update)
    }
}

} // verus!
