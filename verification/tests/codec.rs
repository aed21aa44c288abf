use oscoin_ledger::cbor::{
    expect_bytes, expect_text, read_head, read_text, read_uint, text_is, write_head, write_text,
};
use oscoin_ledger::codec::{decode, encode, Record};
use oscoin_ledger::interface::DecodeError;
use oscoin_ledger::{Call, Project, Query, Update};
use serde::ser::{SerializeStruct, Serializer};
use serde_cbor::Value;
use std::collections::BTreeMap;

fn sample_project() -> Project {
    Project {
        name: "monokol".to_owned(),
        description: "Looking glass into the future.".to_owned(),
        img_url: "https://monok.el/img/logo.svg".to_owned(),
        members: vec![[1u8; 20], [200u8; 20]],
    }
}

fn all_calls() -> Vec<Call> {
    vec![
        Call::Query(Query::Ping),
        Call::Query(Query::CounterValue),
        Call::Query(Query::GetProject { project_id: [0xabu8; 20] }),
        Call::Query(Query::ListProjects),
        Call::Update(Update::CounterInc),
        Call::Update(Update::RegisterProject {
            name: "n".to_owned(),
            description: "d".repeat(300),
            img_url: "ü".to_owned(),
        }),
    ]
}

fn text(s: &str) -> Value {
    Value::Text(s.to_owned())
}

fn map(entries: Vec<(&str, Value)>) -> Value {
    let mut m = BTreeMap::new();
    for (key, value) in entries {
        m.insert(text(key), value);
    }
    Value::Map(m)
}

fn id_value(id: &[u8; 20]) -> Value {
    Value::Array(id.iter().map(|b| Value::Integer(*b as i128)).collect())
}

#[test]
fn unsigned_integers_are_written_in_their_shortest_form() {
    assert_eq!(encode(&0u32), vec![0x00]);
    assert_eq!(encode(&23u32), vec![0x17]);
    assert_eq!(encode(&24u32), vec![0x18, 0x18]);
    assert_eq!(encode(&255u32), vec![0x18, 0xff]);
    assert_eq!(encode(&256u32), vec![0x19, 0x01, 0x00]);
    assert_eq!(encode(&65535u32), vec![0x19, 0xff, 0xff]);
    assert_eq!(encode(&65536u32), vec![0x1a, 0x00, 0x01, 0x00, 0x00]);
    assert_eq!(encode(&u32::MAX), vec![0x1a, 0xff, 0xff, 0xff, 0xff]);
}

#[test]
fn unsigned_integers_agree_with_serde_cbor() {
    for v in [0u32, 1, 23, 24, 255, 256, 1000, 65535, 65536, 123_456_789, u32::MAX] {
        let bytes = encode(&v);
        assert_eq!(bytes, serde_cbor::to_vec(&v).unwrap());
        assert_eq!(serde_cbor::from_slice::<u32>(&bytes).unwrap(), v);
        assert_eq!(decode::<u32>(&bytes), Some(v));
    }
}

#[test]
fn unsigned_integers_in_a_longer_form_are_refused() {
    assert_eq!(decode::<u32>(&[0x18, 0x05]), None);
    assert_eq!(decode::<u32>(&[0x19, 0x00, 0xff]), None);
    assert_eq!(decode::<u32>(&[0x1a, 0x00, 0x00, 0xff, 0xff]), None);
    assert_eq!(decode::<u32>(&[0x1b, 0, 0, 0, 0, 0, 0, 0, 1]), None);
    // Too large for 32 bits.
    assert_eq!(decode::<u32>(&[0x1b, 0, 0, 0, 1, 0, 0, 0, 0]), None);
    // Trailing bytes.
    assert_eq!(decode::<u32>(&[0x01, 0x00]), None);
    assert_eq!(decode::<u32>(&[]), None);
}

#[test]
fn texts_agree_with_serde_cbor() {
    for s in ["", "pong", "hällo wörld", "日本語", &"x".repeat(23), &"x".repeat(24), &"y".repeat(70_000)] {
        let owned = s.to_owned();
        let bytes = encode(&owned);
        assert_eq!(bytes, serde_cbor::to_vec(&owned).unwrap());
        assert_eq!(decode::<String>(&bytes), Some(owned));
    }
}

#[test]
fn text_that_is_not_utf8_is_refused() {
    assert_eq!(decode::<String>(&[0x62, 0xc3, 0x28]), None);
    assert_eq!(decode::<String>(&[0x61, 0xff]), None);
    // The length says more than there is.
    assert_eq!(decode::<String>(&[0x65, b'a', b'b']), None);
    assert_eq!(decode::<String>(&[0x62, b'o', b'k']), Some("ok".to_owned()));
}

#[test]
fn unit_and_identifiers_agree_with_serde_cbor() {
    assert_eq!(encode(&()), vec![0xf6]);
    assert_eq!(encode(&()), serde_cbor::to_vec(&()).unwrap());
    assert_eq!(decode::<()>(&[0xf6]), Some(()));
    assert_eq!(decode::<()>(&[0xf7]), None);

    let mut id = [0u8; 20];
    for (i, b) in id.iter_mut().enumerate() {
        *b = (i * 13) as u8;
    }
    let bytes = encode(&id);
    assert_eq!(bytes, serde_cbor::to_vec(&id).unwrap());
    assert_eq!(bytes[0], 0x94);
    assert_eq!(decode::<[u8; 20]>(&bytes), Some(id));
    assert_eq!(decode::<[u8; 20]>(&bytes[..bytes.len() - 1]), None);

    let ids = vec![id, [255u8; 20]];
    let bytes = encode(&ids);
    assert_eq!(bytes, serde_cbor::to_vec(&ids).unwrap());
    assert_eq!(decode::<Vec<[u8; 20]>>(&bytes), Some(ids));
    assert_eq!(encode(&Vec::<[u8; 20]>::new()), vec![0x80]);
}

#[test]
fn project_is_written_as_serde_writes_a_struct() {
    let project = sample_project();
    let mut expected = Vec::new();
    {
        let mut ser = serde_cbor::Serializer::new(&mut expected);
        let mut st = (&mut ser).serialize_struct("Project", 4).unwrap();
        st.serialize_field("name", &project.name).unwrap();
        st.serialize_field("description", &project.description).unwrap();
        st.serialize_field("img_url", &project.img_url).unwrap();
        st.serialize_field("members", &project.members).unwrap();
        st.end().unwrap();
    }
    let bytes = encode(&project);
    assert_eq!(bytes, expected);
    assert_eq!(decode::<Project>(&bytes), Some(project));
}

#[test]
fn project_is_read_by_serde_cbor_as_a_map_of_its_fields() {
    let project = sample_project();
    let bytes = encode(&project);
    let value: Value = serde_cbor::from_slice(&bytes).unwrap();
    let expected = map(vec![
        ("name", text("monokol")),
        ("description", text("Looking glass into the future.")),
        ("img_url", text("https://monok.el/img/logo.svg")),
        ("members", Value::Array(vec![id_value(&[1u8; 20]), id_value(&[200u8; 20])])),
    ]);
    assert_eq!(value, expected);
}

#[test]
fn optional_project_is_null_or_the_project() {
    let none: Option<Project> = None;
    assert_eq!(encode(&none), vec![0xf6]);
    assert_eq!(decode::<Option<Project>>(&[0xf6]), Some(None));
    let some = Some(sample_project());
    let bytes = encode(&some);
    assert_eq!(bytes, encode(&sample_project()));
    assert_eq!(decode::<Option<Project>>(&bytes), Some(some));
}

#[test]
fn list_of_projects_round_trips() {
    let mut other = sample_project();
    other.name = "other".to_owned();
    other.members = vec![];
    let list = vec![sample_project(), other];
    let bytes = encode(&list);
    assert_eq!(bytes[0], 0x82);
    assert_eq!(decode::<Vec<Project>>(&bytes), Some(list));
}

#[test]
fn calls_are_written_as_serde_writes_enums() {
    let expected = vec![
        map(vec![("Query", text("Ping"))]),
        map(vec![("Query", text("CounterValue"))]),
        map(vec![(
            "Query",
            map(vec![("GetProject", map(vec![("project_id", id_value(&[0xabu8; 20]))]))]),
        )]),
        map(vec![("Query", text("ListProjects"))]),
        map(vec![("Update", text("CounterInc"))]),
        map(vec![(
            "Update",
            map(vec![(
                "RegisterProject",
                map(vec![
                    ("name", text("n")),
                    ("description", text(&"d".repeat(300))),
                    ("img_url", text("ü")),
                ]),
            )]),
        )]),
    ];
    for (call, value) in all_calls().iter().zip(expected) {
        let bytes = call.serialize();
        assert_eq!(serde_cbor::from_slice::<Value>(&bytes).unwrap(), value);
    }
    // Maps of one entry have one form only.
    assert_eq!(
        Call::Query(Query::Ping).serialize(),
        serde_cbor::to_vec(&map(vec![("Query", text("Ping"))])).unwrap()
    );
    assert_eq!(
        Call::Query(Query::GetProject { project_id: [0xabu8; 20] }).serialize(),
        serde_cbor::to_vec(&map(vec![(
            "Query",
            map(vec![("GetProject", map(vec![("project_id", id_value(&[0xabu8; 20]))]))]),
        )]))
        .unwrap()
    );
}

#[test]
fn every_call_round_trips() {
    for call in all_calls() {
        let bytes = call.serialize();
        assert_eq!(Call::deserialize(&bytes), Ok(call));
    }
}

#[test]
fn empty_input_is_no_call() {
    assert_eq!(Call::deserialize(&[]), Err(DecodeError));
}

#[test]
fn truncated_input_is_no_call() {
    for call in all_calls() {
        let bytes = call.serialize();
        for len in 0..bytes.len() {
            assert_eq!(Call::deserialize(&bytes[..len]), Err(DecodeError));
        }
    }
}

#[test]
fn input_with_trailing_bytes_is_no_call() {
    for call in all_calls() {
        let mut bytes = call.serialize();
        bytes.push(0);
        assert_eq!(Call::deserialize(&bytes), Err(DecodeError));
    }
}

#[test]
fn unknown_variants_are_no_call() {
    let unknown_family = serde_cbor::to_vec(&map(vec![("Delete", text("Ping"))])).unwrap();
    assert_eq!(Call::deserialize(&unknown_family), Err(DecodeError));
    let unknown_query = serde_cbor::to_vec(&map(vec![("Query", text("Pong"))])).unwrap();
    assert_eq!(Call::deserialize(&unknown_query), Err(DecodeError));
    let update_as_query = serde_cbor::to_vec(&map(vec![("Query", text("CounterInc"))])).unwrap();
    assert_eq!(Call::deserialize(&update_as_query), Err(DecodeError));
}

#[test]
fn conversions_into_call() {
    assert_eq!(Call::from(Query::Ping), Call::Query(Query::Ping));
    assert_eq!(Call::from(Update::CounterInc), Call::Update(Update::CounterInc));
}

#[test]
fn heads_are_read_where_they_stand() {
    let mut out = vec![0xee];
    write_head(&mut out, 5, 4);
    write_head(&mut out, 3, 1000);
    write_head(&mut out, 0, u64::MAX);
    assert_eq!(
        out,
        vec![0xee, 0xa4, 0x79, 0x03, 0xe8, 0x1b, 0xff, 0xff, 0xff, 0xff, 0xff, 0xff, 0xff, 0xff]
    );
    assert_eq!(read_head(&out, 1), Some((5, 4, 2)));
    assert_eq!(read_head(&out, 2), Some((3, 1000, 5)));
    assert_eq!(read_head(&out, 5), Some((0, u64::MAX, 14)));
    // Behind the end, and where the digits are cut off.
    assert_eq!(read_head(&out, 14), None);
    assert_eq!(read_head(&out, 15), None);
    assert_eq!(read_head(&out[..4], 2), None);
    // Indefinite lengths and reserved forms are no heads.
    assert_eq!(read_head(&[0x9f], 0), None);
    assert_eq!(read_head(&[0x1c], 0), None);
}

#[test]
fn texts_and_bytes_are_found_where_they_stand() {
    let mut out = vec![7u8];
    write_text(&mut out, "name");
    write_text(&mut out, "value");
    assert_eq!(out[1..6], [0x64, b'n', b'a', b'm', b'e']);
    assert_eq!(expect_text(&out, 1, "name"), Some(6));
    assert_eq!(expect_text(&out, 1, "nam"), None);
    assert_eq!(expect_text(&out, 0, "name"), None);
    assert_eq!(expect_text(&out, 100, "name"), None);
    assert_eq!(read_text(&out, 6), Some(("value".to_owned(), 12)));
    assert_eq!(read_text(&out, 0), None);
    assert_eq!(read_uint(&out, 0), Some((7, 1)));
    assert_eq!(read_uint(&out, 1), None);
    assert!(expect_bytes(&out, 2, b"name"));
    assert!(!expect_bytes(&out, 3, b"name"));
    assert!(expect_bytes(&out, 12, b""));
    assert!(!expect_bytes(&out, 13, b""));
    assert!(text_is(&"value".to_owned(), "value"));
    assert!(!text_is(&"value".to_owned(), "values"));
}

#[test]
fn readers_give_the_position_behind_the_item() {
    let mut out = Vec::new();
    17u32.write(&mut out);
    "x".to_owned().write(&mut out);
    [9u8; 20].write(&mut out);
    ().write(&mut out);
    let (n, next) = u32::read(&out, 0).unwrap();
    assert_eq!((n, next), (17, 1));
    let (s, next) = String::read(&out, next).unwrap();
    assert_eq!((s.as_str(), next), ("x", 3));
    let (id, next) = <[u8; 20]>::read(&out, next).unwrap();
    assert_eq!((id, next), ([9u8; 20], 24));
    assert_eq!(<()>::read(&out, next), Some(((), 25)));
    assert_eq!(<()>::read(&out, 25), None);
    assert_eq!(u32::read(&out, 1), None);
}
