//! Projects, as the ledger stores and sends them.
use crate::cbor::{
    expect_text, head, lemma_first_byte, lemma_starts_at_concat, lemma_text_unique, read_head,
    read_text, starts_at, text_fits, text_item, write_head, write_text, MAJOR_MAP, NULL,
};
use crate::codec::{list_item, Record};
use vstd::prelude::*;

verus! {

/// The identifier of a project.
pub type ProjectId = [u8; 20];

/// The identifier of an account.
pub type AccountId = [u8; 20];

/// A project that was registered with the ledger.
#[derive(Debug, Clone, PartialEq, Eq, PartialOrd, Ord)]
pub struct Project {
    pub name: String,
    pub description: String,
    pub img_url: String,
    /// The accounts that maintain the project. The first one registered it.
    pub members: Vec<AccountId>,
}

/// What a [`Project`] holds, as mathematical values.
pub struct ProjectModel {
    pub name: Seq<char>,
    pub description: Seq<char>,
    pub img_url: Seq<char>,
    pub members: Seq<Seq<u8>>,
}

impl DeepView for Project {
    type V = ProjectModel;

    open spec fn deep_view(&self) -> ProjectModel {
        ProjectModel {
            name: self.name@,
            description: self.description@,
            img_url: self.img_url@,
            members: self.members.deep_view(),
        }
    }
}

/// A map entry whose value is a text, as it is written: the key, then the
/// value.
pub open spec fn entry_item(key: Seq<char>, value: Seq<char>) -> Seq<u8> {
    text_item(key) + text_item(value)
}

/// The three texts that describe a project, as they are written: three map
/// entries, keyed by the names of the fields.
pub open spec fn texts_item(name: Seq<char>, description: Seq<char>, img_url: Seq<char>) -> Seq<
    u8,
> {
    entry_item("name"@, name) + entry_item("description"@, description) + entry_item(
        "img_url"@,
        img_url,
    )
}

/// Whether the three texts that describe a project can be written.
pub open spec fn texts_fit(name: Seq<char>, description: Seq<char>, img_url: Seq<char>) -> bool {
    text_fits(name) && text_fits(description) && text_fits(img_url)
}

/// A project, as it is written: a map of four entries, keyed by the names of
/// the fields.
pub open spec fn project_item(p: ProjectModel) -> Seq<u8> {
    head(MAJOR_MAP, 4) + texts_item(p.name, p.description, p.img_url) + text_item("members"@)
        + list_item::<AccountId>(p.members)
}

/// Whether a project can be written.
pub open spec fn project_fits(p: ProjectModel) -> bool {
    &&& texts_fit(p.name, p.description, p.img_url)
    &&& <Vec<AccountId> as Record>::fits(p.members)
}

/// Appends a map entry with the key `key` and the text `value`.
pub(crate) fn write_entry(out: &mut Vec<u8>, key: &str, value: &str)
    ensures
        text_fits(value@),
        final(out)@ == old(out)@ + entry_item(key@, value@),
{
    let ghost before = out@;
    write_text(out, key);
    write_text(out, value);
    proof {
        assert(out@ =~= before + entry_item(key@, value@));
    }
}

/// Reads a map entry whose key is `key` and whose value is a text: gives
/// the text and the position behind the entry.
pub(crate) fn read_entry(bytes: &[u8], pos: usize, key: &str) -> (r: Option<(String, usize)>)
    ensures
        r matches Some((s, next)) ==> text_fits(s@) && starts_at(
            bytes@,
            pos as int,
            entry_item(key@, s@),
        ) && next == pos + entry_item(key@, s@).len(),
        forall|t: Seq<char>|
            text_fits(t) && #[trigger] starts_at(bytes@, pos as int, entry_item(key@, t)) ==> (
            r matches Some((s, next)) && s@ == t && next == pos + entry_item(key@, t).len()),
{
    proof {
        assert forall|t: Seq<char>| #[trigger]
            starts_at(bytes@, pos as int, entry_item(key@, t)) <==> starts_at(
                bytes@,
                pos as int,
                text_item(key@),
            ) && starts_at(bytes@, pos + text_item(key@).len(), text_item(t)) by {
            lemma_starts_at_concat(bytes@, pos as int, text_item(key@), text_item(t));
        }
    }
    match expect_text(bytes, pos, key) {
        Some(next) => {
            read_text(bytes, next)
        },
        None => None,
    }
}

/// Appends the three texts that describe a project.
pub(crate) fn write_texts(out: &mut Vec<u8>, name: &str, description: &str, img_url: &str)
    ensures
        texts_fit(name@, description@, img_url@),
        final(out)@ == old(out)@ + texts_item(name@, description@, img_url@),
{
    let ghost before = out@;
    write_entry(out, "name", name);
    write_entry(out, "description", description);
    write_entry(out, "img_url", img_url);
    proof {
        assert(out@ =~= before + texts_item(name@, description@, img_url@));
    }
}

/// Where the entries of the three texts stand, if they stand at `pos`.
pub(crate) proof fn lemma_texts_parts(
    bytes: Seq<u8>,
    pos: int,
    name: Seq<char>,
    description: Seq<char>,
    img_url: Seq<char>,
)
    ensures
        starts_at(bytes, pos, texts_item(name, description, img_url)) <==> starts_at(
            bytes,
            pos,
            entry_item("name"@, name),
        ) && starts_at(
            bytes,
            pos + entry_item("name"@, name).len(),
            entry_item("description"@, description),
        ) && starts_at(
            bytes,
            pos + entry_item("name"@, name).len() + entry_item("description"@, description).len(),
            entry_item("img_url"@, img_url),
        ),
{
    let a = entry_item("name"@, name);
    let b = entry_item("description"@, description);
    let c = entry_item("img_url"@, img_url);
    lemma_starts_at_concat(bytes, pos, a + b, c);
    lemma_starts_at_concat(bytes, pos, a, b);
}

/// Reads the three texts that describe a project, and gives them with the
/// position behind them.
pub(crate) fn read_texts(bytes: &[u8], pos: usize) -> (r: Option<(String, String, String, usize)>)
    ensures
        r matches Some((n, d, i, next)) ==> texts_fit(n@, d@, i@) && starts_at(
            bytes@,
            pos as int,
            texts_item(n@, d@, i@),
        ) && next == pos + texts_item(n@, d@, i@).len(),
        forall|name: Seq<char>, description: Seq<char>, img_url: Seq<char>|
            texts_fit(name, description, img_url) && #[trigger] starts_at(
                bytes@,
                pos as int,
                texts_item(name, description, img_url),
            ) ==> (r matches Some((n, d, i, next)) && n@ == name && d@ == description && i@
                == img_url && next == pos + texts_item(name, description, img_url).len()),
{
    proof {
        assert forall|name: Seq<char>, description: Seq<char>, img_url: Seq<char>| #[trigger]
            starts_at(
                bytes@,
                pos as int,
                texts_item(name, description, img_url),
            ) implies starts_at(bytes@, pos as int, entry_item("name"@, name)) by {
            lemma_texts_parts(bytes@, pos as int, name, description, img_url);
        }
    }
    let (n, at_description) = match read_entry(bytes, pos, "name") {
        Some(entry) => entry,
        None => {
            return None;
        },
    };
    proof {
        assert forall|name: Seq<char>, description: Seq<char>, img_url: Seq<char>|
            texts_fit(name, description, img_url) && #[trigger] starts_at(
                bytes@,
                pos as int,
                texts_item(name, description, img_url),
            ) implies name == n@ && starts_at(
            bytes@,
            at_description as int,
            entry_item("description"@, description),
        ) by {
            lemma_texts_parts(bytes@, pos as int, name, description, img_url);
        }
    }
    let (d, at_img_url) = match read_entry(bytes, at_description, "description") {
        Some(entry) => entry,
        None => {
            return None;
        },
    };
    proof {
        assert forall|name: Seq<char>, description: Seq<char>, img_url: Seq<char>|
            texts_fit(name, description, img_url) && #[trigger] starts_at(
                bytes@,
                pos as int,
                texts_item(name, description, img_url),
            ) implies description == d@ && starts_at(
            bytes@,
            at_img_url as int,
            entry_item("img_url"@, img_url),
        ) by {
            lemma_texts_parts(bytes@, pos as int, name, description, img_url);
        }
    }
    let (i, end) = match read_entry(bytes, at_img_url, "img_url") {
        Some(entry) => entry,
        None => {
            return None;
        },
    };
    proof {
        lemma_texts_parts(bytes@, pos as int, n@, d@, i@);
    }
    Some((n, d, i, end))
}

/// At most one entry with a given key stands at a position.
pub(crate) proof fn lemma_entry_unique(bytes: Seq<u8>, pos: int, key: Seq<char>, a: Seq<char>, b: Seq<char>)
    requires
        text_fits(a),
        text_fits(b),
        starts_at(bytes, pos, entry_item(key, a)),
        starts_at(bytes, pos, entry_item(key, b)),
    ensures
        a == b,
{
    lemma_starts_at_concat(bytes, pos, text_item(key), text_item(a));
    lemma_starts_at_concat(bytes, pos, text_item(key), text_item(b));
    lemma_text_unique(bytes, pos + text_item(key).len(), a, b);
}

/// At most one triple of texts stands at a position.
pub(crate) proof fn lemma_texts_unique(
    bytes: Seq<u8>,
    pos: int,
    n1: Seq<char>,
    d1: Seq<char>,
    i1: Seq<char>,
    n2: Seq<char>,
    d2: Seq<char>,
    i2: Seq<char>,
)
    requires
        texts_fit(n1, d1, i1),
        texts_fit(n2, d2, i2),
        starts_at(bytes, pos, texts_item(n1, d1, i1)),
        starts_at(bytes, pos, texts_item(n2, d2, i2)),
    ensures
        n1 == n2,
        d1 == d2,
        i1 == i2,
{
    lemma_texts_parts(bytes, pos, n1, d1, i1);
    lemma_texts_parts(bytes, pos, n2, d2, i2);
    lemma_entry_unique(bytes, pos, "name"@, n1, n2);
    let at_description = pos + entry_item("name"@, n1).len();
    lemma_entry_unique(bytes, at_description, "description"@, d1, d2);
    let at_img_url = at_description + entry_item("description"@, d1).len();
    lemma_entry_unique(bytes, at_img_url, "img_url"@, i1, i2);
}

/// Where the parts of a project stand, if the project stands at `pos`.
proof fn lemma_project_parts(bytes: Seq<u8>, pos: int, p: ProjectModel)
    ensures
        starts_at(bytes, pos, project_item(p)) <==> starts_at(bytes, pos, head(MAJOR_MAP, 4))
            && starts_at(
            bytes,
            pos + head(MAJOR_MAP, 4).len(),
            texts_item(p.name, p.description, p.img_url),
        ) && starts_at(
            bytes,
            pos + head(MAJOR_MAP, 4).len() + texts_item(p.name, p.description, p.img_url).len(),
            text_item("members"@),
        ) && starts_at(
            bytes,
            pos + head(MAJOR_MAP, 4).len() + texts_item(p.name, p.description, p.img_url).len()
                + text_item("members"@).len(),
            list_item::<AccountId>(p.members),
        ),
{
    let a = head(MAJOR_MAP, 4);
    let b = texts_item(p.name, p.description, p.img_url);
    let c = text_item("members"@);
    let d = list_item::<AccountId>(p.members);
    lemma_starts_at_concat(bytes, pos, a + b + c, d);
    lemma_starts_at_concat(bytes, pos, a + b, c);
    lemma_starts_at_concat(bytes, pos, a, b);
}

impl Record for Project {
    open spec fn fits(v: ProjectModel) -> bool {
        project_fits(v)
    }

    open spec fn item(v: ProjectModel) -> Seq<u8> {
        project_item(v)
    }

    proof fn lemma_unique(bytes: Seq<u8>, pos: int, v: ProjectModel, w: ProjectModel) {
        lemma_project_parts(bytes, pos, v);
        lemma_project_parts(bytes, pos, w);
        let at_texts = pos + head(MAJOR_MAP, 4).len();
        lemma_texts_unique(
            bytes,
            at_texts,
            v.name,
            v.description,
            v.img_url,
            w.name,
            w.description,
            w.img_url,
        );
        let at_list = at_texts + texts_item(v.name, v.description, v.img_url).len() + text_item(
            "members"@,
        ).len();
        <Vec<AccountId> as Record>::lemma_unique(bytes, at_list, v.members, w.members);
    }

    fn write(&self, out: &mut Vec<u8>) {
        let ghost before = out@;
        write_head(out, MAJOR_MAP, 4);
        write_texts(out, self.name.as_str(), self.description.as_str(), self.img_url.as_str());
        write_text(out, "members");
        self.members.write(out);
        proof {
            assert(out@ =~= before + project_item(self.deep_view()));
        }
    }

    fn read(bytes: &[u8], pos: usize) -> (r: Option<(Project, usize)>) {
        proof {
            assert forall|w: ProjectModel| #[trigger]
                starts_at(bytes@, pos as int, project_item(w)) implies starts_at(
                bytes@,
                pos as int,
                head(MAJOR_MAP, 4),
            ) by {
                lemma_project_parts(bytes@, pos as int, w);
            }
        }
        let at_texts = match read_head(bytes, pos) {
            Some((major, n, next)) => {
                if major == MAJOR_MAP && n == 4 {
                    next
                } else {
                    return None;
                }
            },
            None => {
                return None;
            },
        };
        proof {
            assert forall|w: ProjectModel| #[trigger]
                starts_at(bytes@, pos as int, project_item(w)) implies starts_at(
                bytes@,
                at_texts as int,
                texts_item(w.name, w.description, w.img_url),
            ) by {
                lemma_project_parts(bytes@, pos as int, w);
            }
        }
        let (name, description, img_url, at_key) = match read_texts(bytes, at_texts) {
            Some(texts) => texts,
            None => {
                return None;
            },
        };
        proof {
            assert forall|w: ProjectModel|
                project_fits(w) && #[trigger] starts_at(
                    bytes@,
                    pos as int,
                    project_item(w),
                ) implies w.name == name@ && w.description == description@ && w.img_url
                == img_url@ && starts_at(bytes@, at_key as int, text_item("members"@)) by {
                lemma_project_parts(bytes@, pos as int, w);
            }
        }
        let at_list = match expect_text(bytes, at_key, "members") {
            Some(next) => next,
            None => {
                return None;
            },
        };
        proof {
            assert forall|w: ProjectModel|
                project_fits(w) && #[trigger] starts_at(
                    bytes@,
                    pos as int,
                    project_item(w),
                ) implies starts_at(
                bytes@,
                at_list as int,
                <Vec<AccountId> as Record>::item(w.members),
            ) by {
                lemma_project_parts(bytes@, pos as int, w);
            }
        }
        let (members, end) = match Vec::<AccountId>::read(bytes, at_list) {
            Some(list) => list,
            None => {
                return None;
            },
        };
        let project = Project { name, description, img_url, members };
        proof {
            lemma_project_parts(bytes@, pos as int, project.deep_view());
        }
        Some((project, end))
    }
}

/// The first byte tells an absent project from a present one.
proof fn lemma_option_first_byte(bytes: Seq<u8>, pos: int, v: Option<ProjectModel>)
    requires
        starts_at(bytes, pos, <Option<Project> as Record>::item(v)),
    ensures
        pos < bytes.len(),
        bytes[pos] == NULL <==> v is None,
{
    match v {
        Some(p) => {
            let rest = texts_item(p.name, p.description, p.img_url) + text_item("members"@)
                + list_item::<AccountId>(p.members);
            assert(project_item(p) =~= head(MAJOR_MAP, 4) + rest);
            lemma_first_byte(bytes, pos, MAJOR_MAP, 4, rest);
        },
        None => {
            assert(bytes.subrange(pos, pos + 1)[0] == NULL);
        },
    }
}

impl Record for Option<Project> {
    open spec fn fits(v: Option<ProjectModel>) -> bool {
        match v {
            Some(p) => project_fits(p),
            None => true,
        }
    }

    open spec fn item(v: Option<ProjectModel>) -> Seq<u8> {
        match v {
            Some(p) => project_item(p),
            None => seq![NULL],
        }
    }

    proof fn lemma_unique(
        bytes: Seq<u8>,
        pos: int,
        v: Option<ProjectModel>,
        w: Option<ProjectModel>,
    ) {
        lemma_option_first_byte(bytes, pos, v);
        lemma_option_first_byte(bytes, pos, w);
        match (v, w) {
            (Some(p), Some(q)) => {
                <Project as Record>::lemma_unique(bytes, pos, p, q);
            },
            _ => {},
        }
    }

    fn write(&self, out: &mut Vec<u8>) {
        match self {
            Some(project) => {
                project.write(out);
            },
            None => {
                out.push(NULL);
                proof {
                    assert(out@ =~= old(out)@ + seq![NULL]);
                }
            },
        }
    }

    fn read(bytes: &[u8], pos: usize) -> (r: Option<(Option<Project>, usize)>) {
        proof {
            assert forall|w: Option<ProjectModel>| #[trigger]
                starts_at(bytes@, pos as int, Self::item(w)) implies pos < bytes@.len() && (
            bytes@[pos as int] == NULL <==> w is None) && (w matches Some(p) ==> starts_at(
                bytes@,
                pos as int,
                <Project as Record>::item(p),
            )) by {
                match w {
                    Some(p) => {
                        let rest = texts_item(p.name, p.description, p.img_url) + text_item(
                            "members"@,
                        ) + list_item::<AccountId>(p.members);
                        assert(project_item(p) =~= head(MAJOR_MAP, 4) + rest);
                        lemma_first_byte(bytes@, pos as int, MAJOR_MAP, 4, rest);
                    },
                    None => {
                        assert(bytes@.subrange(pos as int, pos + 1)[0] == NULL);
                    },
                }
            }
        }
        if pos < bytes.len() && bytes[pos] == NULL {
            proof {
                assert(bytes@.subrange(pos as int, pos + 1) =~= seq![NULL]);
            }
            Some((None, pos + 1))
        } else {
            match Project::read(bytes, pos) {
                Some((project, next)) => Some((Some(project), next)),
                None => None,
            }
        }
    }
}

} // verus!
