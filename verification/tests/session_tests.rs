use ship_server::beamout::{BeaminResponse, RecursivePartDescription};
use ship_server::codec::{PartKind, ToClientMsg, ToServerMsg};
use ship_server::session::{
    frame_message, pack_moves, player_name, ConnectionReader, PlayerWorldUpdate, ReaderAction, ReaderEvent,
    ReaderPhase, Serializer, SerializerAction, ToGameEvent, ToSerializerEvent, WorldUpdatePartMove,
};
use ship_server::websocket::OutboundWsMessage;

fn bytes_of(m: &ToClientMsg) -> Vec<u8> {
    let mut out = Vec::new();
    m.serialize(&mut out);
    (*OutboundWsMessage::from(&out).0).clone()
}

fn sends(actions: &[SerializerAction]) -> Vec<(u16, Vec<Vec<u8>>)> {
    actions
        .iter()
        .filter_map(|a| match a {
            SerializerAction::Send(id, q) => Some((*id, q.iter().map(|m| (*m.0).clone()).collect())),
            _ => None,
        })
        .collect()
}

#[test]
fn framed_message_bytes() {
    let m = frame_message(&ToClientMsg::RemovePart { id: 5 });
    assert_eq!(*m.0, vec![0x82u8, 3, 6, 0, 5]);
}

#[test]
fn shared_message_has_the_same_bytes() {
    let m = frame_message(&ToClientMsg::RemovePlayer { id: 1 });
    let s = m.share();
    assert_eq!(*s.0, *m.0);
}

#[test]
fn pack_of_moves_counts_them() {
    let moves = vec![WorldUpdatePartMove { id: 1, x: 2, y: 3, rot_sin: 4, rot_cos: 5 }];
    let p = pack_moves(&moves);
    let mut raw = Vec::new();
    ToClientMsg::MessagePack { count: 1 }.serialize(&mut raw);
    ToClientMsg::MovePart { id: 1, x: 2, y: 3, rotation_n: 5, rotation_i: 4 }.serialize(&mut raw);
    assert_eq!(*p.0, *OutboundWsMessage::from(&raw).0);
}

#[test]
fn batch_flushes_every_writer_in_id_order() {
    let mut s = Serializer::new();
    let events = vec![
        ToSerializerEvent::NewWriter(7),
        ToSerializerEvent::NewWriter(3),
        ToSerializerEvent::Message(7, ToClientMsg::RemovePart { id: 1 }),
        ToSerializerEvent::Broadcast(ToClientMsg::RemovePlayer { id: 2 }),
    ];
    let actions = s.handle_batch(&events);
    let out = sends(&actions);
    assert_eq!(out.len(), 2);
    assert_eq!(out[0], (3, vec![bytes_of(&ToClientMsg::RemovePlayer { id: 2 })]));
    assert_eq!(
        out[1],
        (7, vec![bytes_of(&ToClientMsg::RemovePart { id: 1 }), bytes_of(&ToClientMsg::RemovePlayer { id: 2 })])
    );
    // The queues were handed out: the next batch starts empty.
    let again = sends(&s.handle_batch(&Vec::new()));
    assert_eq!(again, vec![(3, vec![]), (7, vec![])]);
}

#[test]
fn message_to_unknown_writer_is_dropped() {
    let mut s = Serializer::new();
    let out = sends(&s.handle_batch(&vec![
        ToSerializerEvent::NewWriter(1),
        ToSerializerEvent::Message(2, ToClientMsg::RemovePart { id: 1 }),
    ]));
    assert_eq!(out, vec![(1, vec![])]);
}

#[test]
fn multicast_reaches_each_named_writer() {
    let mut s = Serializer::new();
    let m = ToClientMsg::RemovePart { id: 4 };
    let out = sends(&s.handle_batch(&vec![
        ToSerializerEvent::NewWriter(1),
        ToSerializerEvent::NewWriter(2),
        ToSerializerEvent::NewWriter(3),
        ToSerializerEvent::MulticastMessage(vec![3, 1, 3], m),
    ]));
    let b = bytes_of(&ToClientMsg::RemovePart { id: 4 });
    assert_eq!(out, vec![(1, vec![b.clone()]), (2, vec![]), (3, vec![b.clone(), b])]);
}

#[test]
fn deleting_a_writer_closes_it_and_tells_the_game() {
    let mut s = Serializer::new();
    let actions = s.handle_batch(&vec![
        ToSerializerEvent::NewWriter(4),
        ToSerializerEvent::Message(4, ToClientMsg::RemovePart { id: 9 }),
        ToSerializerEvent::DeleteWriter(4),
        ToSerializerEvent::DeleteWriter(4),
    ]);
    assert_eq!(actions.len(), 3);
    match &actions[0] {
        SerializerAction::Send(4, q) => {
            assert_eq!(q.len(), 2);
            assert_eq!(*q[0].0, bytes_of(&ToClientMsg::RemovePart { id: 9 }));
            assert_eq!(*q[1].0, vec![0x88u8, 0]);
        }
        _ => panic!("expected the last queue"),
    }
    assert!(matches!(actions[1], SerializerAction::PlayerQuit(4)));
    assert!(matches!(actions[2], SerializerAction::DropWriter(4)));
}

#[test]
fn pong_goes_out_at_once() {
    let mut s = Serializer::new();
    let actions = s.handle_batch(&vec![ToSerializerEvent::NewWriter(2), ToSerializerEvent::SendPong(2)]);
    assert_eq!(sends(&actions), vec![(2, vec![vec![0x8Au8, 0]]), (2, vec![])]);
}

#[test]
fn world_update_goes_only_to_writers_that_asked() {
    let mut s = Serializer::new();
    let part = WorldUpdatePartMove { id: 10, x: 1, y: 2, rot_sin: 3, rot_cos: 4 };
    let free = WorldUpdatePartMove { id: 20, x: 5, y: 6, rot_sin: 7, rot_cos: 8 };
    let players = vec![PlayerWorldUpdate {
        id: 1,
        seen_by: vec![1, 2],
        parts: vec![part],
        post_simulation: ToClientMsg::PostSimulationTick { your_power: 50 },
    }];
    let actions = s.handle_batch(&vec![
        ToSerializerEvent::NewWriter(1),
        ToSerializerEvent::NewWriter(2),
        ToSerializerEvent::RequestUpdate(1),
        ToSerializerEvent::WorldUpdate(players, vec![free]),
    ]);
    let out = sends(&actions);
    let pack = (*pack_moves(&vec![part]).0).clone();
    let post = bytes_of(&ToClientMsg::PostSimulationTick { your_power: 50 });
    let free_pack = (*pack_moves(&vec![free]).0).clone();
    assert_eq!(out, vec![(1, vec![pack, post, free_pack]), (2, vec![])]);
    // The request is used up.
    let next = sends(&s.handle_batch(&vec![ToSerializerEvent::WorldUpdate(Vec::new(), Vec::new())]));
    assert_eq!(next, vec![(1, vec![]), (2, vec![])]);
}

#[test]
fn player_names_are_trimmed() {
    assert_eq!(player_name(&String::from("  ada \t")), "ada");
    assert_eq!(player_name(&String::from("   ")), "Unnamed");
    assert_eq!(player_name(&String::new()), "Unnamed");
}

fn playing_reader(is_admin: bool) -> ConnectionReader {
    let mut r = ConnectionReader::new(3);
    r.step(ReaderEvent::Message(Ok(ToServerMsg::Handshake {
        client: String::from("web"),
        session: Some(String::from("sess")),
        name: String::from(" zed "),
    })));
    r.step(ReaderEvent::Beamin(Some(BeaminResponse {
        is_admin,
        beamout_token: String::from("tok"),
        layout: None,
    })));
    r
}

#[test]
fn reader_answers_pings_before_the_handshake() {
    let mut r = ConnectionReader::new(1);
    let acts = r.step(ReaderEvent::Ping);
    assert!(matches!(acts[..], [ReaderAction::QueuePong]));
    assert!(matches!(r.phase, ReaderPhase::AwaitingHandshake));
}

#[test]
fn reader_refuses_a_first_message_that_is_no_handshake() {
    let mut r = ConnectionReader::new(1);
    let acts = r.step(ReaderEvent::Message(Ok(ToServerMsg::BeamOut)));
    assert!(matches!(acts[..], [ReaderAction::Close]));
    assert!(matches!(r.phase, ReaderPhase::Closed));
}

#[test]
fn reader_asks_the_account_service_then_starts_the_player() {
    let mut r = ConnectionReader::new(3);
    let acts = r.step(ReaderEvent::Message(Ok(ToServerMsg::Handshake {
        client: String::from("web"),
        session: Some(String::from("sess")),
        name: String::from(" zed "),
    })));
    match &acts[..] {
        [ReaderAction::RequestBeamin(Some(s))] => assert_eq!(s, "sess"),
        _ => panic!("expected the beam-in request"),
    }
    let acts = r.step(ReaderEvent::Beamin(None));
    assert_eq!(acts.len(), 2);
    match &acts[0] {
        ReaderAction::ToGame(ToGameEvent::NewPlayer { id, name, parts, beamout_token }) => {
            assert_eq!(*id, 3);
            assert_eq!(name, "zed");
            assert_eq!(parts.kind, PartKind::Core);
            assert!(parts.attachments.is_empty());
            assert!(beamout_token.is_none());
        }
        _ => panic!("expected the new player"),
    }
    assert!(matches!(acts[1], ReaderAction::StartWriter));
    assert!(matches!(r.phase, ReaderPhase::Playing { is_admin: false, .. }));
}

#[test]
fn beamin_with_a_saved_ship_and_token() {
    let mut r = ConnectionReader::new(8);
    r.step(ReaderEvent::Message(Ok(ToServerMsg::Handshake {
        client: String::from("c"),
        session: None,
        name: String::from("n"),
    })));
    let ship = RecursivePartDescription::from(PartKind::Hub);
    let acts = r.step(ReaderEvent::Beamin(Some(BeaminResponse {
        is_admin: true,
        beamout_token: String::from("t"),
        layout: Some(ship),
    })));
    match &acts[0] {
        ReaderAction::ToGame(ToGameEvent::NewPlayer { parts, beamout_token, .. }) => {
            assert_eq!(parts.kind, PartKind::Hub);
            assert_eq!(beamout_token.as_deref(), Some("t"));
        }
        _ => panic!("expected the new player"),
    }
    assert!(matches!(r.phase, ReaderPhase::Playing { is_admin: true, .. }));
}

fn chat(r: &mut ConnectionReader, text: &str) -> Vec<ReaderAction> {
    r.step(ReaderEvent::Message(Ok(ToServerMsg::SendChatMessage { msg: String::from(text) })))
}

#[test]
fn chat_line_goes_to_everyone() {
    let mut r = playing_reader(false);
    match &chat(&mut r, "hello")[..] {
        [ReaderAction::ToSerializer(ToSerializerEvent::Broadcast(ToClientMsg::ChatMessage { username, msg, color }))] => {
            assert_eq!(username, "zed");
            assert_eq!(msg, "hello");
            assert_eq!(color, "#dd55ff");
        }
        _ => panic!("expected a broadcast"),
    }
}

#[test]
fn shrug_command_shrugs() {
    let mut r = playing_reader(false);
    for line in ["/shrug", "/shrug now"] {
        match &chat(&mut r, line)[..] {
            [ReaderAction::ToSerializer(ToSerializerEvent::Broadcast(ToClientMsg::ChatMessage { msg, .. }))] => {
                assert_eq!(msg, "¯\\_(ツ)_/¯")
            }
            _ => panic!("expected a shrug"),
        }
    }
}

#[test]
fn other_commands_need_an_admin() {
    let mut r = playing_reader(false);
    match &chat(&mut r, "/teleport 1 2")[..] {
        [ReaderAction::ToSerializer(ToSerializerEvent::Message(3, ToClientMsg::ChatMessage { username, msg, color }))] => {
            assert_eq!(username, "Server");
            assert_eq!(msg, "You cannot use that command");
            assert_eq!(color, "#FF0000");
        }
        _ => panic!("expected a warning"),
    }
    let mut admin = playing_reader(true);
    match &chat(&mut admin, "/shrugged")[..] {
        [ReaderAction::ToGame(ToGameEvent::AdminCommand { id: 3, command })] => assert_eq!(command, "/shrugged"),
        _ => panic!("expected an admin command"),
    }
}

#[test]
fn requests_pings_and_game_messages_are_routed() {
    let mut r = playing_reader(false);
    assert!(matches!(
        r.step(ReaderEvent::Message(Ok(ToServerMsg::RequestUpdate)))[..],
        [ReaderAction::ToSerializer(ToSerializerEvent::RequestUpdate(3))]
    ));
    assert!(matches!(r.step(ReaderEvent::Ping)[..], [ReaderAction::ToSerializer(ToSerializerEvent::SendPong(3))]));
    assert!(matches!(
        r.step(ReaderEvent::Message(Ok(ToServerMsg::ReleaseGrab)))[..],
        [ReaderAction::ToGame(ToGameEvent::PlayerMessage { id: 3, msg: ToServerMsg::ReleaseGrab })]
    ));
}

#[test]
fn a_bad_message_ends_the_connection() {
    let mut r = playing_reader(false);
    let acts = r.step(ReaderEvent::Message(Err(())));
    assert!(matches!(
        acts[..],
        [ReaderAction::ToSerializer(ToSerializerEvent::DeleteWriter(3)), ReaderAction::Close]
    ));
    assert!(matches!(r.phase, ReaderPhase::Closed));
    assert!(r.step(ReaderEvent::Ping).is_empty());
}
