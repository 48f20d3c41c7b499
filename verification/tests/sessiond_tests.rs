use ship_server::beamout::RecursivePartDescription;
use ship_server::codec::{PartKind, ToClientMsg, ToServerMsg};
use ship_server::session::WorldUpdatePartMove;
use ship_server::sessiond::{poll_order, InboundEvent, OutboundEvent, Sessiond, SessiondAction, SessiondEvent};

fn encode_server(m: &ToServerMsg) -> Vec<u8> {
    let mut out = Vec::new();
    m.serialize(&mut out);
    out
}

fn encode_client(m: &ToClientMsg) -> Vec<u8> {
    let mut out = Vec::new();
    m.serialize(&mut out);
    out
}

fn handshake(name: &str) -> Vec<u8> {
    encode_server(&ToServerMsg::Handshake {
        client: String::from("c"),
        session: Some(String::from("s1")),
        name: String::from(name),
    })
}

/// A daemon with players 0 and 1 in the game.
fn two_players() -> Sessiond {
    let mut d = Sessiond::new();
    for id in 0u16..2 {
        d.step(SessiondEvent::NewSocket);
        d.step(SessiondEvent::WebSocketAccepted(id));
        d.step(SessiondEvent::PendingMessage(id, handshake("p")));
        d.step(SessiondEvent::PendingBeamin(id));
    }
    d
}

#[test]
fn sockets_get_increasing_ids() {
    let mut d = Sessiond::new();
    assert!(matches!(d.step(SessiondEvent::NewSocket)[..], [SessiondAction::AcceptSocket(0)]));
    assert!(matches!(d.step(SessiondEvent::NewSocket)[..], [SessiondAction::AcceptSocket(1)]));
}

#[test]
fn handshake_then_beamin_makes_a_player() {
    let mut d = Sessiond::new();
    d.step(SessiondEvent::NewSocket);
    assert!(d.step(SessiondEvent::WebSocketAccepted(0)).is_empty());
    match &d.step(SessiondEvent::PendingMessage(0, handshake("amy")))[..] {
        [SessiondAction::RequestBeamin(0, Some(s))] => assert_eq!(s, "s1"),
        _ => panic!("expected a beam-in request"),
    }
    match &d.step(SessiondEvent::PendingBeamin(0))[..] {
        [SessiondAction::ToGame(InboundEvent::NewPlayer { id: 0, name })] => assert_eq!(name, "amy"),
        _ => panic!("expected a new player"),
    }
}

#[test]
fn handshake_before_the_websocket_is_open_drops_the_connection() {
    let mut d = Sessiond::new();
    d.step(SessiondEvent::NewSocket);
    assert!(matches!(d.step(SessiondEvent::PendingMessage(0, handshake("x")))[..], [SessiondAction::DropSocket(0)]));
    assert!(d.step(SessiondEvent::PendingBeamin(0)).is_empty());
}

#[test]
fn other_first_message_drops_the_connection() {
    let mut d = Sessiond::new();
    d.step(SessiondEvent::NewSocket);
    d.step(SessiondEvent::WebSocketAccepted(0));
    let acts = d.step(SessiondEvent::PendingMessage(0, encode_server(&ToServerMsg::BeamOut)));
    assert!(matches!(acts[..], [SessiondAction::DropSocket(0)]));
    assert!(matches!(d.step(SessiondEvent::PendingMessage(0, vec![99]))[..], []));
}

#[test]
fn player_messages_go_to_the_game() {
    let mut d = two_players();
    let acts = d.step(SessiondEvent::SessionMessage(1, encode_server(&ToServerMsg::ReleaseGrab)));
    assert!(matches!(
        acts[..],
        [SessiondAction::ToGame(InboundEvent::PlayerMessage { id: 1, msg: ToServerMsg::ReleaseGrab })]
    ));
}

#[test]
fn unreadable_message_drops_the_player() {
    let mut d = two_players();
    let acts = d.step(SessiondEvent::SessionMessage(1, vec![200]));
    assert!(matches!(
        acts[..],
        [SessiondAction::DropSocket(1), SessiondAction::ToGame(InboundEvent::PlayerQuit { id: 1 })]
    ));
    let acts = d.step(SessiondEvent::SessionDisconnect(1));
    assert!(matches!(acts[..], [SessiondAction::ToGame(InboundEvent::PlayerQuit { id: 1 })]));
}

#[test]
fn game_events_go_out_to_players() {
    let mut d = two_players();
    let m = ToClientMsg::RemovePart { id: 3 };
    let b = encode_client(&m);
    let acts = d.step(SessiondEvent::Outbound(vec![
        OutboundEvent::Message(1, ToClientMsg::RemovePart { id: 3 }),
        OutboundEvent::Broadcast(m),
        OutboundEvent::Message(9, ToClientMsg::RemovePart { id: 3 }),
    ]));
    let sent: Vec<(u16, Vec<u8>)> = acts
        .iter()
        .map(|a| match a {
            SessiondAction::Send(id, bytes) => (*id, bytes.clone()),
            _ => panic!("only sends expected"),
        })
        .collect();
    assert_eq!(sent, vec![(1, b.clone()), (0, b.clone()), (1, b)]);
}

#[test]
fn world_update_sends_each_move_to_everyone() {
    let mut d = two_players();
    let mv = WorldUpdatePartMove { id: 4, x: 1, y: 2, rot_sin: 3, rot_cos: 4 };
    let acts = d.step(SessiondEvent::Outbound(vec![OutboundEvent::WorldUpdate(vec![mv, mv])]));
    assert_eq!(acts.len(), 4);
    let b = encode_client(&ToClientMsg::MovePart { id: 4, x: 1, y: 2, rotation_n: 4, rotation_i: 3 });
    for a in &acts {
        match a {
            SessiondAction::Send(_, bytes) => assert_eq!(*bytes, b),
            _ => panic!("only sends expected"),
        }
    }
}

#[test]
fn beam_out_saves_the_ship_with_the_session() {
    let mut d = two_players();
    let acts = d.step(SessiondEvent::Outbound(vec![OutboundEvent::BeamOutPlayer(
        0,
        RecursivePartDescription::from(PartKind::Core),
    )]));
    match &acts[..] {
        [SessiondAction::FlushAndClose(0), SessiondAction::BeamOut(Some(s), layout)] => {
            assert_eq!(s, "s1");
            assert_eq!(layout.kind, PartKind::Core);
        }
        _ => panic!("expected the beam-out"),
    }
    let acts = d.step(SessiondEvent::Outbound(vec![OutboundEvent::SessionBad(0)]));
    assert!(matches!(acts[..], [SessiondAction::ToGame(InboundEvent::PlayerQuit { id: 0 })]));
}

#[test]
fn polling_starts_where_it_stopped() {
    assert_eq!(poll_order(4, 2), vec![2, 3, 0, 1, 2, 3]);
    assert_eq!(poll_order(3, 0), vec![0, 1, 2, 0, 1, 2]);
    assert_eq!(poll_order(2, 5), vec![0, 1]);
    assert!(poll_order(0, 0).is_empty());
}

#[test]
fn a_fresh_daemon_can_accept() {
    let mut d = Sessiond::new();
    assert!(d.can_accept());
    d.step(SessiondEvent::NewSocket);
    assert!(d.can_accept());
}
