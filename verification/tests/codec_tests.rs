use ship_server::codec::{PartKind, ToClientMsg, ToServerMsg};

#[test]
fn part_kind_serializes_to_its_number() {
    let mut out = Vec::new();
    PartKind::Hub.serialize(&mut out);
    assert_eq!(out, vec![3u8]);
}

#[test]
fn to_server_handshake_roundtrip() {
    let msg = ToServerMsg::Handshake {
        client: String::from("web"),
        session: Some(String::from("abc")),
        name: String::from("bob"),
    };
    let mut out = Vec::new();
    msg.serialize(&mut out);
    let mut index = 0usize;
    let back = ToServerMsg::deserialize(&out, &mut index);
    assert!(back.is_ok());
    assert_eq!(index, out.len());
    match back.unwrap() {
        ToServerMsg::Handshake { client, session, name } => {
            assert_eq!(client, "web");
            assert_eq!(session, Some(String::from("abc")));
            assert_eq!(name, "bob");
        }
        _ => panic!("wrong variant"),
    }
}

#[test]
fn to_client_remove_part_bytes() {
    let mut out = Vec::new();
    ToClientMsg::RemovePart { id: 0x0102 }.serialize(&mut out);
    assert_eq!(out, vec![6u8, 1, 2]);
}
