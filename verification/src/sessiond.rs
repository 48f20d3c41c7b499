//! The session daemon of the server's first networking layer: one task
//! that takes new sockets, walks each through its WebSocket handshake, the
//! player's handshake message and the account service, and then carries
//! messages between the players and the game.  Here are its decisions, as
//! a state machine; the sockets and the account service stay outside.
use vstd::prelude::*;
use crate::codec::{ToClientMsg, ToServerMsg, to_server_schema, opt_text_view};
use crate::wire::{encode_record, decode_record, Record, Value};
use crate::beamout::RecursivePartDescription;
use crate::session::WorldUpdatePartMove;

verus! {

/// What the daemon tells the game.
pub enum InboundEvent {
    NewPlayer { id: u16, name: String },
    PlayerMessage { id: u16, msg: ToServerMsg },
    PlayerQuit { id: u16 },
}

/// What the game tells the daemon.
pub enum OutboundEvent {
    Message(u16, ToClientMsg),
    Broadcast(ToClientMsg),
    WorldUpdate(Vec<WorldUpdatePartMove>),
    /// The player's session is to be dropped.
    SessionBad(u16),
    /// The player beams out with this ship.
    BeamOutPlayer(u16, RecursivePartDescription),
}

/// Where a connection that is not yet a player's stands.
pub enum PendingPhase {
    AcceptingWebSocket,
    AwaitingHandshake,
    /// The account service is being asked about the session.
    AwaitingBeamin { session: Option<String>, name: String },
}

pub struct PendingSession {
    pub id: u16,
    pub phase: PendingPhase,
}

/// A connected player, with the account session it came with.
pub struct LiveSession {
    pub id: u16,
    pub session_id: Option<String>,
}

/// What happens around the daemon.
pub enum SessiondEvent {
    Outbound(Vec<OutboundEvent>),
    /// A socket was accepted.
    NewSocket,
    /// The WebSocket handshake of this connection completed.
    WebSocketAccepted(u16),
    PendingMessage(u16, Vec<u8>),
    /// The account service answered about this connection's session.
    PendingBeamin(u16),
    PendingDisconnect(u16),
    SessionMessage(u16, Vec<u8>),
    SessionDisconnect(u16),
}

/// What the daemon asks of its caller.
pub enum SessiondAction {
    /// Start the WebSocket handshake of the newest socket, under this id.
    AcceptSocket(u16),
    /// Send these bytes as one binary message on this player's socket.
    Send(u16, Vec<u8>),
    ToGame(InboundEvent),
    /// Ask the account service about this connection's session.
    RequestBeamin(u16, Option<String>),
    /// Flush this connection's socket in the background, then drop it.
    FlushAndClose(u16),
    /// Save the ship of the session with the account service.
    BeamOut(Option<String>, RecursivePartDescription),
    /// Drop this connection's socket.
    DropSocket(u16),
}

pub ghost enum PendingModel {
    AcceptingWebSocket,
    AwaitingHandshake,
    AwaitingBeamin(Option<Seq<char>>, Seq<char>),
}

pub ghost enum ActModel {
    AcceptSocket(u16),
    Send(u16, Seq<u8>),
    NewPlayer(u16, Seq<char>),
    PlayerMessage(u16, Record),
    PlayerQuit(u16),
    RequestBeamin(u16, Option<Seq<char>>),
    FlushAndClose(u16),
    BeamOut(Option<Seq<char>>, RecursivePartDescription),
    DropSocket(u16),
}

impl PendingSession {
    pub open spec fn model(self) -> (u16, PendingModel) {
        (
            self.id,
            match self.phase {
                PendingPhase::AcceptingWebSocket => PendingModel::AcceptingWebSocket,
                PendingPhase::AwaitingHandshake => PendingModel::AwaitingHandshake,
                PendingPhase::AwaitingBeamin { session, name } => PendingModel::AwaitingBeamin(
                    opt_text_view(&session),
                    name@,
                ),
            },
        )
    }
}

impl LiveSession {
    pub open spec fn model(self) -> (u16, Option<Seq<char>>) {
        (self.id, opt_text_view(&self.session_id))
    }
}

impl SessiondAction {
    pub open spec fn model(self) -> ActModel {
        match self {
            SessiondAction::AcceptSocket(id) => ActModel::AcceptSocket(id),
            SessiondAction::Send(id, b) => ActModel::Send(id, b@),
            SessiondAction::ToGame(InboundEvent::NewPlayer { id, name }) => ActModel::NewPlayer(id, name@),
            SessiondAction::ToGame(InboundEvent::PlayerMessage { id, msg }) => ActModel::PlayerMessage(id, msg@),
            SessiondAction::ToGame(InboundEvent::PlayerQuit { id }) => ActModel::PlayerQuit(id),
            SessiondAction::RequestBeamin(id, s) => ActModel::RequestBeamin(id, opt_text_view(&s)),
            SessiondAction::FlushAndClose(id) => ActModel::FlushAndClose(id),
            SessiondAction::BeamOut(s, layout) => ActModel::BeamOut(opt_text_view(&s), layout),
            SessiondAction::DropSocket(id) => ActModel::DropSocket(id),
        }
    }
}

pub open spec fn acts_model(a: Seq<SessiondAction>) -> Seq<ActModel> {
    a.map_values(|x: SessiondAction| x.model())
}

// ---------------------------------------------------------------- tables kept by id

pub open spec fn keys<V>(s: Seq<(u16, V)>) -> Seq<u16> {
    s.map_values(|e: (u16, V)| e.0)
}

/// The ids of a table are increasing.
pub open spec fn keyed<V>(s: Seq<(u16, V)>) -> bool {
    forall|i: int, j: int| 0 <= i < j < s.len() ==> (#[trigger] s[i]).0 < (#[trigger] s[j]).0
}

/// How many entries of the table have an id below `id`.
pub open spec fn key_pos<V>(s: Seq<(u16, V)>, id: u16) -> nat
    decreases s.len(),
{
    if s.len() == 0 || s[0].0 >= id {
        0
    } else {
        1 + key_pos(s.drop_first(), id)
    }
}

/// The entry with id `id`, if there is one.
pub open spec fn find_key<V>(s: Seq<(u16, V)>, id: u16) -> Option<V> {
    let p = key_pos(s, id) as int;
    if p < s.len() && s[p].0 == id {
        Some(s[p].1)
    } else {
        None
    }
}

/// The table without the entry `id`.
pub open spec fn remove_key<V>(s: Seq<(u16, V)>, id: u16) -> Seq<(u16, V)> {
    let p = key_pos(s, id) as int;
    if p < s.len() && s[p].0 == id {
        s.remove(p)
    } else {
        s
    }
}

/// The table with entry `id` set to `v`, added in its place if it was
/// missing.
pub open spec fn put_key<V>(s: Seq<(u16, V)>, id: u16, v: V) -> Seq<(u16, V)> {
    let p = key_pos(s, id) as int;
    if p < s.len() && s[p].0 == id {
        s.update(p, (id, v))
    } else {
        s.insert(p, (id, v))
    }
}

proof fn lemma_key_pos_is<V>(s: Seq<(u16, V)>, id: u16, p: int)
    requires
        0 <= p <= s.len(),
        forall|j: int| 0 <= j < p ==> (#[trigger] s[j]).0 < id,
        p < s.len() ==> s[p].0 >= id,
    ensures
        key_pos(s, id) == p,
    decreases p,
{
    if p > 0 {
        assert forall|j: int| 0 <= j < p - 1 implies (#[trigger] s.drop_first()[j]).0 < id by {
            assert(s.drop_first()[j] == s[j + 1]);
        }
        lemma_key_pos_is(s.drop_first(), id, p - 1);
    }
}

proof fn lemma_key_pos_bounds<V>(s: Seq<(u16, V)>, id: u16)
    ensures
        key_pos(s, id) <= s.len(),
        forall|j: int| 0 <= j < key_pos(s, id) ==> (#[trigger] s[j]).0 < id,
        key_pos(s, id) < s.len() ==> s[key_pos(s, id) as int].0 >= id,
    decreases s.len(),
{
    if s.len() > 0 && s[0].0 < id {
        lemma_key_pos_bounds(s.drop_first(), id);
        assert forall|j: int| 0 <= j < key_pos(s, id) implies (#[trigger] s[j]).0 < id by {
            if j > 0 {
                assert(s[j] == s.drop_first()[j - 1]);
            }
        }
        if key_pos(s, id) < s.len() {
            assert(s[key_pos(s, id) as int] == s.drop_first()[key_pos(s.drop_first(), id) as int]);
        }
    }
}

/// Removing an entry keeps the table in order.
proof fn lemma_remove_keyed<V>(s: Seq<(u16, V)>, p: int)
    requires
        keyed(s),
        0 <= p < s.len(),
    ensures
        keyed(s.remove(p)),
{
    let ns = s.remove(p);
    assert forall|a: int, b: int| 0 <= a < b < ns.len() implies (#[trigger] ns[a]).0 < (#[trigger] ns[b]).0 by {
        if b < p {
            assert(ns[a] == s[a] && ns[b] == s[b]);
        } else if a < p {
            assert(ns[a] == s[a] && ns[b] == s[b + 1]);
        } else {
            assert(ns[a] == s[a + 1] && ns[b] == s[b + 1]);
        }
    }
}

/// Setting an entry keeps the table in order.
proof fn lemma_put_keyed<V>(s: Seq<(u16, V)>, id: u16, v: V)
    requires
        keyed(s),
    ensures
        keyed(put_key(s, id, v)),
{
    lemma_key_pos_bounds(s, id);
    let p = key_pos(s, id) as int;
    let ns = put_key(s, id, v);
    if p < s.len() && s[p].0 == id {
        assert forall|a: int, b: int| 0 <= a < b < ns.len() implies (#[trigger] ns[a]).0 < (#[trigger] ns[b]).0 by {
            assert(ns[a].0 == s[a].0 && ns[b].0 == s[b].0);
        }
    } else {
        assert forall|a: int, b: int| 0 <= a < b < ns.len() implies (#[trigger] ns[a]).0 < (#[trigger] ns[b]).0 by {
            if b < p {
                assert(ns[a] == s[a] && ns[b] == s[b]);
            } else if b == p {
                assert(ns[a] == s[a]);
            } else if a < p {
                assert(ns[a] == s[a] && ns[b] == s[b - 1]);
                if b - 1 > p {
                    assert(s[p].0 < s[b - 1].0);
                }
            } else if a == p {
                assert(ns[b] == s[b - 1]);
                if b - 1 > p {
                    assert(s[p].0 < s[b - 1].0);
                }
            } else {
                assert(ns[a] == s[a - 1] && ns[b] == s[b - 1]);
            }
        }
    }
}

// ---------------------------------------------------------------- the daemon's state and steps

/// What the daemon keeps: the id the next socket gets, the connections
/// that are not players yet, and the players' sessions, each by id.
pub ghost struct SessiondModel {
    pub next_id: u16,
    pub pending: Seq<(u16, PendingModel)>,
    pub sessions: Seq<(u16, Option<Seq<char>>)>,
}

/// The message the bytes hold, read from their start.
pub open spec fn received(bytes: Seq<u8>) -> Option<Record> {
    match decode_record(|t: u8| to_server_schema(t), bytes) {
        Some((rec, _)) => Some(rec),
        None => None,
    }
}

/// The session and name of the player's handshake message, if the bytes
/// hold one.
pub open spec fn handshake_of(bytes: Seq<u8>) -> Option<(Option<Seq<char>>, Seq<char>)> {
    match received(bytes) {
        Some(rec) => if rec.tag == 0 && rec.values.len() == 3 {
            match (rec.values[1], rec.values[2]) {
                (Value::OptText(s), Value::Text(n)) => Some((s, n)),
                _ => None,
            }
        } else {
            None
        },
        None => None,
    }
}

/// The message to every player, by increasing id.
pub open spec fn to_all(ss: Seq<(u16, Option<Seq<char>>)>, b: Seq<u8>) -> Seq<ActModel> {
    ss.map_values(|e: (u16, Option<Seq<char>>)| ActModel::Send(e.0, b))
}

/// Each move, in order, to every player.
pub open spec fn moves_to_all(ss: Seq<(u16, Option<Seq<char>>)>, moves: Seq<WorldUpdatePartMove>) -> Seq<ActModel>
    decreases moves.len(),
{
    if moves.len() == 0 {
        seq![]
    } else {
        moves_to_all(ss, moves.drop_last()) + to_all(ss, encode_record(moves.last().msg()@))
    }
}

/// `DropSocket(id)` if the table has an entry `id`.
pub open spec fn drop_if_present<V>(s: Seq<(u16, V)>, id: u16) -> Seq<ActModel> {
    if find_key(s, id) is Some {
        seq![ActModel::DropSocket(id)]
    } else {
        seq![]
    }
}

/// What one event from the game does to the sessions, and asks for.
pub open spec fn outbound_step(ss: Seq<(u16, Option<Seq<char>>)>, ev: OutboundEvent) -> (
    Seq<(u16, Option<Seq<char>>)>,
    Seq<ActModel>,
) {
    match ev {
        OutboundEvent::Message(id, m) => (
            ss,
            if find_key(ss, id) is Some {
                seq![ActModel::Send(id, encode_record(m@))]
            } else {
                seq![]
            },
        ),
        OutboundEvent::Broadcast(m) => (ss, to_all(ss, encode_record(m@))),
        OutboundEvent::WorldUpdate(moves) => (ss, moves_to_all(ss, moves@)),
        OutboundEvent::SessionBad(id) => (
            remove_key(ss, id),
            drop_if_present(ss, id) + seq![ActModel::PlayerQuit(id)],
        ),
        OutboundEvent::BeamOutPlayer(id, layout) => match find_key(ss, id) {
            Some(sid) => (
                remove_key(ss, id),
                seq![ActModel::FlushAndClose(id), ActModel::BeamOut(sid, layout)],
            ),
            None => (ss, seq![]),
        },
    }
}

pub open spec fn outbound_steps(ss: Seq<(u16, Option<Seq<char>>)>, evs: Seq<OutboundEvent>) -> (
    Seq<(u16, Option<Seq<char>>)>,
    Seq<ActModel>,
)
    decreases evs.len(),
{
    if evs.len() == 0 {
        (ss, seq![])
    } else {
        let (s1, a1) = outbound_steps(ss, evs.drop_last());
        let (s2, a2) = outbound_step(s1, evs.last());
        (s2, a1 + a2)
    }
}

/// What one event does to the daemon, and what it asks for.
///
/// A new socket gets the next id and has its WebSocket accepted.  A
/// connection that sends the player's handshake while it waits for one is
/// looked up with the account service; any other message, or one at
/// another time, drops it.  When the service answers, the connection
/// becomes a player's session and the game hears of the new player.  A
/// player's messages go to the game; one that cannot be read, or the end
/// of the connection, drops the session and tells the game the player
/// left.  The game's events go out as `outbound_step` says.
pub open spec fn sessiond_step(m: SessiondModel, ev: SessiondEvent) -> (SessiondModel, Seq<ActModel>) {
    match ev {
        SessiondEvent::Outbound(evs) => {
            let (ss, acts) = outbound_steps(m.sessions, evs@);
            (SessiondModel { sessions: ss, ..m }, acts)
        },
        SessiondEvent::NewSocket => (
            SessiondModel {
                next_id: (m.next_id + 1) as u16,
                pending: m.pending.push((m.next_id, PendingModel::AcceptingWebSocket)),
                ..m
            },
            seq![ActModel::AcceptSocket(m.next_id)],
        ),
        SessiondEvent::WebSocketAccepted(id) => if find_key(m.pending, id) == Some(PendingModel::AcceptingWebSocket) {
            (SessiondModel { pending: put_key(m.pending, id, PendingModel::AwaitingHandshake), ..m }, seq![])
        } else {
            (m, seq![])
        },
        SessiondEvent::PendingMessage(id, bytes) => match handshake_of(bytes@) {
            Some((s, n)) => if find_key(m.pending, id) == Some(PendingModel::AwaitingHandshake) {
                (
                    SessiondModel { pending: put_key(m.pending, id, PendingModel::AwaitingBeamin(s, n)), ..m },
                    seq![ActModel::RequestBeamin(id, s)],
                )
            } else {
                (SessiondModel { pending: remove_key(m.pending, id), ..m }, drop_if_present(m.pending, id))
            },
            None => (SessiondModel { pending: remove_key(m.pending, id), ..m }, drop_if_present(m.pending, id)),
        },
        SessiondEvent::PendingBeamin(id) => match find_key(m.pending, id) {
            Some(PendingModel::AwaitingBeamin(s, n)) => (
                SessiondModel {
                    pending: remove_key(m.pending, id),
                    sessions: put_key(m.sessions, id, s),
                    ..m
                },
                seq![ActModel::NewPlayer(id, n)],
            ),
            Some(_) => (SessiondModel { pending: remove_key(m.pending, id), ..m }, seq![ActModel::DropSocket(id)]),
            None => (m, seq![]),
        },
        SessiondEvent::PendingDisconnect(id) => (
            SessiondModel { pending: remove_key(m.pending, id), ..m },
            drop_if_present(m.pending, id),
        ),
        SessiondEvent::SessionMessage(id, bytes) => match received(bytes@) {
            Some(rec) => (m, seq![ActModel::PlayerMessage(id, rec)]),
            None => (
                SessiondModel { sessions: remove_key(m.sessions, id), ..m },
                drop_if_present(m.sessions, id) + seq![ActModel::PlayerQuit(id)],
            ),
        },
        SessiondEvent::SessionDisconnect(id) => (
            SessiondModel { sessions: remove_key(m.sessions, id), ..m },
            drop_if_present(m.sessions, id) + seq![ActModel::PlayerQuit(id)],
        ),
    }
}

/// The session daemon's state.
pub struct Sessiond {
    next_session_id: u16,
    pending: Vec<PendingSession>,
    sessions: Vec<LiveSession>,
}

impl View for Sessiond {
    type V = SessiondModel;

    closed spec fn view(&self) -> SessiondModel {
        SessiondModel {
            next_id: self.next_session_id,
            pending: self.pending@.map_values(|p: PendingSession| p.model()),
            sessions: self.sessions@.map_values(|s: LiveSession| s.model()),
        }
    }
}

/// Both tables are kept by increasing id, and every id in them was given
/// out already.
pub open spec fn sessiond_wf(m: SessiondModel) -> bool {
    &&& keyed(m.pending)
    &&& keyed(m.sessions)
    &&& forall|i: int| 0 <= i < m.pending.len() ==> (#[trigger] m.pending[i]).0 < m.next_id
    &&& forall|i: int| 0 <= i < m.sessions.len() ==> (#[trigger] m.sessions[i]).0 < m.next_id
}

fn copy_bytes(b: &Vec<u8>) -> (r: Vec<u8>)
    ensures
        r@ == b@,
{
    let r = b.clone();
    proof {
        assert(r@ =~= b@);
    }
    r
}

fn clone_session(o: &Option<String>) -> (r: Option<String>)
    ensures
        opt_text_view(&r) == opt_text_view(o),
{
    match o {
        Some(s) => Some(s.clone()),
        None => None,
    }
}

impl Sessiond {
    /// A daemon with no connection yet; the first socket gets id 0.
    pub fn new() -> (r: Sessiond)
        ensures
            r@ == (SessiondModel { next_id: 0, pending: seq![], sessions: seq![] }),
            sessiond_wf(r@),
    {
        let r = Sessiond { next_session_id: 0, pending: Vec::new(), sessions: Vec::new() };
        proof {
            assert(r@.pending =~= Seq::<(u16, PendingModel)>::empty());
            assert(r@.sessions =~= Seq::<(u16, Option<Seq<char>>)>::empty());
        }
        r
    }

    /// Whether the daemon still has an id to give a new socket.
    pub fn can_accept(&self) -> (r: bool)
        ensures
            r == (self@.next_id < u16::MAX),
    {
        self.next_session_id < 0xffff
    }

    fn pending_position(&self, id: u16) -> (p: usize)
        requires
            sessiond_wf(self@),
        ensures
            p == key_pos(self@.pending, id),
            p <= self.pending@.len(),
    {
        let ghost s = self@.pending;
        let mut p: usize = 0;
        while p < self.pending.len() && self.pending[p].id < id
            invariant
                p <= self.pending@.len(),
                s == self@.pending,
                forall|j: int| 0 <= j < p ==> (#[trigger] s[j]).0 < id,
            decreases self.pending@.len() - p,
        {
            proof {
                assert(s[p as int] == self.pending@[p as int].model());
            }
            p = p + 1;
        }
        proof {
            if p < self.pending@.len() {
                assert(s[p as int] == self.pending@[p as int].model());
            }
            lemma_key_pos_is(s, id, p as int);
        }
        p
    }

    fn session_position(&self, id: u16) -> (p: usize)
        requires
            sessiond_wf(self@),
        ensures
            p == key_pos(self@.sessions, id),
            p <= self.sessions@.len(),
    {
        let ghost s = self@.sessions;
        let mut p: usize = 0;
        while p < self.sessions.len() && self.sessions[p].id < id
            invariant
                p <= self.sessions@.len(),
                s == self@.sessions,
                forall|j: int| 0 <= j < p ==> (#[trigger] s[j]).0 < id,
            decreases self.sessions@.len() - p,
        {
            proof {
                assert(s[p as int] == self.sessions@[p as int].model());
            }
            p = p + 1;
        }
        proof {
            if p < self.sessions@.len() {
                assert(s[p as int] == self.sessions@[p as int].model());
            }
            lemma_key_pos_is(s, id, p as int);
        }
        p
    }

    /// Drops connection `id` from the pending table, and its socket.
    fn drop_pending(&mut self, id: u16, actions: &mut Vec<SessiondAction>)
        requires
            sessiond_wf(old(self)@),
        ensures
            sessiond_wf(final(self)@),
            final(self)@ == (SessiondModel { pending: remove_key(old(self)@.pending, id), ..old(self)@ }),
            acts_model(final(actions)@) == acts_model(old(actions)@) + drop_if_present(old(self)@.pending, id),
    {
        let ghost m = self@;
        let ghost a0 = acts_model(actions@);
        let p = self.pending_position(id);
        if p < self.pending.len() && self.pending[p].id == id {
            proof {
                assert(m.pending[p as int] == self.pending@[p as int].model());
            }
            let _gone = self.pending.remove(p);
            actions.push(SessiondAction::DropSocket(id));
            proof {
                assert(self@.pending =~= m.pending.remove(p as int));
                assert(self@.sessions =~= m.sessions);
                lemma_remove_keyed(m.pending, p as int);
                assert(acts_model(actions@) =~= a0 + seq![ActModel::DropSocket(id)]);
            }
        } else {
            proof {
                if p < self.pending@.len() {
                    assert(m.pending[p as int] == self.pending@[p as int].model());
                }
                assert(acts_model(actions@) =~= a0 + Seq::<ActModel>::empty());
            }
        }
    }

    /// Drops player `id`'s session, and its socket.
    fn drop_session(&mut self, id: u16, actions: &mut Vec<SessiondAction>)
        requires
            sessiond_wf(old(self)@),
        ensures
            sessiond_wf(final(self)@),
            final(self)@ == (SessiondModel { sessions: remove_key(old(self)@.sessions, id), ..old(self)@ }),
            acts_model(final(actions)@) == acts_model(old(actions)@) + drop_if_present(old(self)@.sessions, id),
    {
        let ghost m = self@;
        let ghost a0 = acts_model(actions@);
        let p = self.session_position(id);
        if p < self.sessions.len() && self.sessions[p].id == id {
            proof {
                assert(m.sessions[p as int] == self.sessions@[p as int].model());
            }
            let _gone = self.sessions.remove(p);
            actions.push(SessiondAction::DropSocket(id));
            proof {
                assert(self@.sessions =~= m.sessions.remove(p as int));
                assert(self@.pending =~= m.pending);
                lemma_remove_keyed(m.sessions, p as int);
                assert(acts_model(actions@) =~= a0 + seq![ActModel::DropSocket(id)]);
            }
        } else {
            proof {
                if p < self.sessions@.len() {
                    assert(m.sessions[p as int] == self.sessions@[p as int].model());
                }
                assert(acts_model(actions@) =~= a0 + Seq::<ActModel>::empty());
            }
        }
    }

    /// The bytes to every player, by increasing id.
    fn send_to_all(&self, bytes: &Vec<u8>, actions: &mut Vec<SessiondAction>)
        ensures
            acts_model(final(actions)@) == acts_model(old(actions)@) + to_all(self@.sessions, bytes@),
    {
        let ghost a0 = acts_model(actions@);
        let ghost ss = self@.sessions;
        let mut i: usize = 0;
        while i < self.sessions.len()
            invariant
                i <= self.sessions@.len(),
                ss == self@.sessions,
                acts_model(actions@) == a0 + to_all(ss.subrange(0, i as int), bytes@),
            decreases self.sessions@.len() - i,
        {
            let copy = copy_bytes(bytes);
            let ghost a1 = acts_model(actions@);
            actions.push(SessiondAction::Send(self.sessions[i].id, copy));
            proof {
                assert(ss[i as int] == self.sessions@[i as int].model());
                assert(acts_model(actions@) =~= a1.push(ActModel::Send(ss[i as int].0, bytes@)));
                assert(to_all(ss.subrange(0, i + 1), bytes@) =~= to_all(ss.subrange(0, i as int), bytes@).push(
                    ActModel::Send(ss[i as int].0, bytes@),
                ));
            }
            i = i + 1;
        }
        proof {
            assert(ss.subrange(0, ss.len() as int) =~= ss);
        }
    }
}

/// A message, encoded.
fn encode(m: &ToClientMsg) -> (r: Vec<u8>)
    ensures
        r@ == encode_record(m@),
{
    let mut out: Vec<u8> = Vec::new();
    m.serialize(&mut out);
    proof {
        assert(out@ =~= encode_record(m@));
    }
    out
}

impl Sessiond {
    /// One event from the game.
    fn outbound(&mut self, ev: OutboundEvent, actions: &mut Vec<SessiondAction>)
        requires
            sessiond_wf(old(self)@),
        ensures
            sessiond_wf(final(self)@),
            final(self)@ == (SessiondModel { sessions: outbound_step(old(self)@.sessions, ev).0, ..old(self)@ }),
            acts_model(final(actions)@) == acts_model(old(actions)@) + outbound_step(old(self)@.sessions, ev).1,
    {
        let ghost m = self@;
        let ghost a0 = acts_model(actions@);
        proof {
            assert(a0 + Seq::<ActModel>::empty() =~= a0);
        }
        match ev {
            OutboundEvent::Message(id, msg) => {
                let p = self.session_position(id);
                if p < self.sessions.len() && self.sessions[p].id == id {
                    proof {
                        assert(m.sessions[p as int] == self.sessions@[p as int].model());
                    }
                    let bytes = encode(&msg);
                    actions.push(SessiondAction::Send(id, bytes));
                    proof {
                        assert(acts_model(actions@) =~= a0 + seq![ActModel::Send(id, encode_record(msg@))]);
                    }
                } else {
                    proof {
                        if p < self.sessions@.len() {
                            assert(m.sessions[p as int] == self.sessions@[p as int].model());
                        }
                    }
                }
            },
            OutboundEvent::Broadcast(msg) => {
                let bytes = encode(&msg);
                self.send_to_all(&bytes, actions);
            },
            OutboundEvent::WorldUpdate(moves) => {
                let mut k: usize = 0;
                proof {
                    assert(moves@.subrange(0, 0) =~= Seq::<WorldUpdatePartMove>::empty());
                }
                while k < moves.len()
                    invariant
                        self@ == m,
                        k <= moves@.len(),
                        acts_model(actions@) == a0 + moves_to_all(m.sessions, moves@.subrange(0, k as int)),
                    decreases moves@.len() - k,
                {
                    let mv = moves[k];
                    let msg = ToClientMsg::MovePart {
                        id: mv.id,
                        x: mv.x,
                        y: mv.y,
                        rotation_n: mv.rot_cos,
                        rotation_i: mv.rot_sin,
                    };
                    let bytes = encode(&msg);
                    let ghost a1 = acts_model(actions@);
                    self.send_to_all(&bytes, actions);
                    proof {
                        let sub = moves@.subrange(0, k + 1);
                        assert(sub.drop_last() =~= moves@.subrange(0, k as int));
                        assert(sub.last() == mv);
                        assert(msg == mv.msg());
                    }
                    k = k + 1;
                }
                proof {
                    assert(moves@.subrange(0, moves@.len() as int) =~= moves@);
                }
            },
            OutboundEvent::SessionBad(id) => {
                self.drop_session(id, actions);
                let ghost a1 = acts_model(actions@);
                actions.push(SessiondAction::ToGame(InboundEvent::PlayerQuit { id }));
                proof {
                    assert(acts_model(actions@) =~= a1.push(ActModel::PlayerQuit(id)));
                    assert(a0 + (drop_if_present(m.sessions, id) + seq![ActModel::PlayerQuit(id)]) =~= a1.push(ActModel::PlayerQuit(id)));
                }
            },
            OutboundEvent::BeamOutPlayer(id, layout) => {
                let p = self.session_position(id);
                if p < self.sessions.len() && self.sessions[p].id == id {
                    proof {
                        assert(m.sessions[p as int] == self.sessions@[p as int].model());
                    }
                    let gone = self.sessions.remove(p);
                    proof {
                        assert(self@.sessions =~= m.sessions.remove(p as int));
                        assert(self@.pending =~= m.pending);
                        lemma_remove_keyed(m.sessions, p as int);
                    }
                    actions.push(SessiondAction::FlushAndClose(id));
                    actions.push(SessiondAction::BeamOut(gone.session_id, layout));
                    proof {
                        assert(acts_model(actions@) =~= a0 + seq![
                            ActModel::FlushAndClose(id),
                            ActModel::BeamOut(m.sessions[p as int].1, layout),
                        ]);
                    }
                } else {
                    proof {
                        if p < self.sessions@.len() {
                            assert(m.sessions[p as int] == self.sessions@[p as int].model());
                        }
                    }
                }
            },
        }
    }

    /// What the daemon does with one event; see `sessiond_step`.  A new
    /// socket needs an id to give: the last one, 65535, is never given.
    pub fn step(&mut self, ev: SessiondEvent) -> (r: Vec<SessiondAction>)
        requires
            sessiond_wf(old(self)@),
            ev is NewSocket ==> old(self)@.next_id < u16::MAX,
        ensures
            sessiond_wf(final(self)@),
            final(self)@ == sessiond_step(old(self)@, ev).0,
            acts_model(r@) == sessiond_step(old(self)@, ev).1,
    {
        let ghost m = self@;
        let mut actions: Vec<SessiondAction> = Vec::new();
        proof {
            assert(acts_model(actions@) =~= Seq::<ActModel>::empty());
        }
        match ev {
            SessiondEvent::Outbound(events) => {
                let ghost evs = events@;
                let mut rest = events;
                let mut k: usize = 0;
                let n = rest.len();
                proof {
                    assert(evs.subrange(0, 0) =~= Seq::<OutboundEvent>::empty());
                    assert(rest@ =~= evs.subrange(0, n as int));
                }
                while k < n
                    invariant
                        sessiond_wf(self@),
                        n == evs.len(),
                        k <= n,
                        rest@ == evs.subrange(k as int, n as int),
                        self@ == (SessiondModel { sessions: outbound_steps(m.sessions, evs.subrange(0, k as int)).0, ..m }),
                        acts_model(actions@) == outbound_steps(m.sessions, evs.subrange(0, k as int)).1,
                    decreases n - k,
                {
                    let ev1 = rest.remove(0);
                    proof {
                        assert(ev1 == evs[k as int]);
                        assert(rest@ =~= evs.subrange(k + 1, n as int));
                    }
                    self.outbound(ev1, &mut actions);
                    proof {
                        let sub = evs.subrange(0, k + 1);
                        assert(sub.drop_last() =~= evs.subrange(0, k as int));
                        assert(sub.last() == evs[k as int]);
                    }
                    k = k + 1;
                }
                proof {
                    assert(evs.subrange(0, n as int) =~= evs);
                }
            },
            SessiondEvent::NewSocket => {
                let id = self.next_session_id;
                self.pending.push(PendingSession { id, phase: PendingPhase::AcceptingWebSocket });
                self.next_session_id = id + 1;
                actions.push(SessiondAction::AcceptSocket(id));
                proof {
                    assert(self@.pending =~= m.pending.push((id, PendingModel::AcceptingWebSocket)));
                    assert(self@.sessions =~= m.sessions);
                    assert(acts_model(actions@) =~= seq![ActModel::AcceptSocket(id)]);
                }
            },
            SessiondEvent::WebSocketAccepted(id) => {
                let p = self.pending_position(id);
                if p < self.pending.len() && self.pending[p].id == id && matches!(self.pending[p].phase, PendingPhase::AcceptingWebSocket) {
                    proof {
                        assert(m.pending[p as int] == self.pending@[p as int].model());
                    }
                    self.pending[p].phase = PendingPhase::AwaitingHandshake;
                    proof {
                        assert(self@.pending =~= put_key(m.pending, id, PendingModel::AwaitingHandshake));
                        assert(self@.sessions =~= m.sessions);
                        lemma_put_keyed(m.pending, id, PendingModel::AwaitingHandshake);
                    }
                } else {
                    proof {
                        if p < self.pending@.len() {
                            assert(m.pending[p as int] == self.pending@[p as int].model());
                        }
                    }
                }
            },
            SessiondEvent::PendingMessage(id, bytes) => {
                self.pending_message(id, bytes, &mut actions);
            },
            SessiondEvent::PendingBeamin(id) => {
                self.pending_beamin(id, &mut actions);
            },
            SessiondEvent::PendingDisconnect(id) => {
                self.drop_pending(id, &mut actions);
            },
            SessiondEvent::SessionMessage(id, bytes) => {
                let mut index: usize = 0;
                let decoded = ToServerMsg::deserialize(&bytes, &mut index);
                proof {
                    assert(bytes@.skip(0) =~= bytes@);
                }
                match decoded {
                    Ok(msg) => {
                        actions.push(SessiondAction::ToGame(InboundEvent::PlayerMessage { id, msg }));
                        proof {
                            assert(acts_model(actions@) =~= seq![ActModel::PlayerMessage(id, msg@)]);
                        }
                    },
                    Err(_) => {
                        self.drop_session(id, &mut actions);
                        let ghost a1 = acts_model(actions@);
                        actions.push(SessiondAction::ToGame(InboundEvent::PlayerQuit { id }));
                        proof {
                            assert(acts_model(actions@) =~= a1.push(ActModel::PlayerQuit(id)));
                            assert(acts_model(actions@) =~= drop_if_present(m.sessions, id) + seq![ActModel::PlayerQuit(id)]);
                        }
                    },
                }
            },
            SessiondEvent::SessionDisconnect(id) => {
                self.drop_session(id, &mut actions);
                let ghost a1 = acts_model(actions@);
                actions.push(SessiondAction::ToGame(InboundEvent::PlayerQuit { id }));
                proof {
                    assert(acts_model(actions@) =~= a1.push(ActModel::PlayerQuit(id)));
                    assert(acts_model(actions@) =~= drop_if_present(m.sessions, id) + seq![ActModel::PlayerQuit(id)]);
                }
            },
        }
        actions
    }
}

impl Sessiond {
    fn pending_message(&mut self, id: u16, bytes: Vec<u8>, actions: &mut Vec<SessiondAction>)
        requires
            sessiond_wf(old(self)@),
            old(actions)@.len() == 0,
        ensures
            sessiond_wf(final(self)@),
            final(self)@ == sessiond_step(old(self)@, SessiondEvent::PendingMessage(id, bytes)).0,
            acts_model(final(actions)@) == sessiond_step(old(self)@, SessiondEvent::PendingMessage(id, bytes)).1,
    {
        let ghost m = self@;
        proof {
            assert(acts_model(actions@) =~= Seq::<ActModel>::empty());
        }
        let mut index: usize = 0;
        let decoded = ToServerMsg::deserialize(&bytes, &mut index);
        proof {
            assert(bytes@.skip(0) =~= bytes@);
        }
        let p = self.pending_position(id);
        let waiting = p < self.pending.len() && self.pending[p].id == id
            && matches!(self.pending[p].phase, PendingPhase::AwaitingHandshake);
        proof {
            if p < self.pending@.len() {
                assert(m.pending[p as int] == self.pending@[p as int].model());
            }
        }
        match decoded {
            Ok(ToServerMsg::Handshake { client, session, name }) => {
                if waiting {
                    let request = clone_session(&session);
                    let ghost nm = name@;
                    let ghost sv = opt_text_view(&session);
                    self.pending[p].phase = PendingPhase::AwaitingBeamin { session, name };
                    actions.push(SessiondAction::RequestBeamin(id, request));
                    proof {
                        assert(self@.pending =~= put_key(m.pending, id, PendingModel::AwaitingBeamin(sv, nm)));
                        assert(self@.sessions =~= m.sessions);
                        lemma_put_keyed(m.pending, id, PendingModel::AwaitingBeamin(sv, nm));
                        assert(acts_model(actions@) =~= seq![ActModel::RequestBeamin(id, sv)]);
                    }
                } else {
                    self.drop_pending(id, actions);
                }
            },
            _ => {
                self.drop_pending(id, actions);
            },
        }
    }

    fn pending_beamin(&mut self, id: u16, actions: &mut Vec<SessiondAction>)
        requires
            sessiond_wf(old(self)@),
            old(actions)@.len() == 0,
        ensures
            sessiond_wf(final(self)@),
            final(self)@ == sessiond_step(old(self)@, SessiondEvent::PendingBeamin(id)).0,
            acts_model(final(actions)@) == sessiond_step(old(self)@, SessiondEvent::PendingBeamin(id)).1,
    {
        let ghost m = self@;
        proof {
            assert(acts_model(actions@) =~= Seq::<ActModel>::empty());
        }
        let p = self.pending_position(id);
        if p < self.pending.len() && self.pending[p].id == id {
            proof {
                assert(m.pending[p as int] == self.pending@[p as int].model());
            }
            let gone = self.pending.remove(p);
            proof {
                assert(self@.pending =~= m.pending.remove(p as int));
                lemma_remove_keyed(m.pending, p as int);
            }
            match gone.phase {
                PendingPhase::AwaitingBeamin { session, name } => {
                    let ghost sv = opt_text_view(&session);
                    let q = self.session_position(id);
                    proof {
                        lemma_key_pos_bounds(m.sessions, id);
                    }
                    if q < self.sessions.len() && self.sessions[q].id == id {
                        proof {
                            assert(m.sessions[q as int] == self.sessions@[q as int].model());
                        }
                        self.sessions[q] = LiveSession { id, session_id: session };
                    } else {
                        proof {
                            if q < self.sessions@.len() {
                                assert(m.sessions[q as int] == self.sessions@[q as int].model());
                            }
                        }
                        self.sessions.insert(q, LiveSession { id, session_id: session });
                    }
                    proof {
                        assert(self@.sessions =~= put_key(m.sessions, id, sv));
                        lemma_put_keyed(m.sessions, id, sv);
                        let ns = self@.sessions;
                        assert forall|i: int| 0 <= i < ns.len() implies (#[trigger] ns[i]).0 < m.next_id by {
                            if ns[i].0 != id {
                                assert(exists|j: int| 0 <= j < m.sessions.len() && m.sessions[j] == ns[i]) by {
                                    let pp = key_pos(m.sessions, id) as int;
                                    if pp < m.sessions.len() && m.sessions[pp].0 == id {
                                        assert(m.sessions[i] == ns[i]);
                                    } else if i < pp {
                                        assert(m.sessions[i] == ns[i]);
                                    } else {
                                        assert(m.sessions[i - 1] == ns[i]);
                                    }
                                }
                            } else {
                                assert(m.pending[p as int].0 == id);
                            }
                        }
                    }
                    actions.push(SessiondAction::ToGame(InboundEvent::NewPlayer { id, name }));
                    proof {
                        assert(acts_model(actions@) =~= seq![ActModel::NewPlayer(id, m.pending[p as int].1->AwaitingBeamin_1)]);
                    }
                },
                _ => {
                    actions.push(SessiondAction::DropSocket(id));
                    proof {
                        assert(self@.sessions =~= m.sessions);
                        assert(acts_model(actions@) =~= seq![ActModel::DropSocket(id)]);
                    }
                },
            }
        } else {
            proof {
                if p < self.pending@.len() {
                    assert(m.pending[p as int] == self.pending@[p as int].model());
                }
            }
        }
    }
}

/// The places in a table of `len` connections in the order the daemon
/// polls them: from the one that answered last (`skip`) to the end, then
/// all of them from the start; the first that has something is taken.
pub open spec fn poll_sequence(len: nat, skip: nat) -> Seq<nat> {
    let s = if skip < len { skip } else { len };
    Seq::new((len - s) as nat, |i: int| (s + i) as nat) + Seq::new(len, |i: int| i as nat)
}

pub fn poll_order(len: usize, skip: usize) -> (r: Vec<usize>)
    ensures
        r@.map_values(|i: usize| i as nat) == poll_sequence(len as nat, skip as nat),
{
    let mut r: Vec<usize> = Vec::new();
    let start = if skip < len { skip } else { len };
    let mut i = start;
    while i < len
        invariant
            start <= i <= len,
            r@.len() == i - start,
            forall|k: int| 0 <= k < r@.len() ==> r@[k] == start + k,
        decreases len - i,
    {
        r.push(i);
        i = i + 1;
    }
    let mut j: usize = 0;
    while j < len
        invariant
            j <= len,
            start <= len,
            r@.len() == len - start + j,
            forall|k: int| 0 <= k < len - start ==> r@[k] == start + k,
            forall|k: int| len - start <= k < r@.len() ==> r@[k] == k - (len - start),
        decreases len - j,
    {
        let ghost before = r@;
        r.push(j);
        proof {
            assert forall|k: int| len - start <= k < r@.len() implies r@[k] == k - (len - start) by {
                if k < before.len() {
                    assert(r@[k] == before[k]);
                }
            }
        }
        j = j + 1;
    }
    proof {
        assert(r@.map_values(|x: usize| x as nat) =~= poll_sequence(len as nat, skip as nat));
    }
    r
}

// ---------------------------------------------------------------- laws

/// A new socket gets an id that no connection and no player has, and the
/// next one will get a larger id.
pub proof fn new_socket_ids_are_fresh(m: SessiondModel)
    requires
        sessiond_wf(m),
        m.next_id < u16::MAX,
    ensures
        sessiond_step(m, SessiondEvent::NewSocket).1 == seq![ActModel::AcceptSocket(m.next_id)],
        find_key(m.pending, m.next_id) is None,
        find_key(m.sessions, m.next_id) is None,
        sessiond_step(m, SessiondEvent::NewSocket).0.next_id > m.next_id,
        sessiond_wf(sessiond_step(m, SessiondEvent::NewSocket).0),
{
    lemma_key_pos_bounds(m.pending, m.next_id);
    lemma_key_pos_bounds(m.sessions, m.next_id);
    let n = sessiond_step(m, SessiondEvent::NewSocket).0;
    assert forall|i: int, j: int| 0 <= i < j < n.pending.len() implies (#[trigger] n.pending[i]).0 < (#[trigger] n.pending[j]).0 by {
        if j == m.pending.len() {
            assert(n.pending[i] == m.pending[i]);
        } else {
            assert(n.pending[i] == m.pending[i] && n.pending[j] == m.pending[j]);
        }
    }
    assert forall|i: int| 0 <= i < n.pending.len() implies (#[trigger] n.pending[i]).0 < n.next_id by {
        if i < m.pending.len() {
            assert(n.pending[i] == m.pending[i]);
        }
    }
}

/// A player whose message cannot be read, or whose connection ends, is
/// gone from the sessions, and the game hears that the player left.
pub proof fn lost_player_quits(m: SessiondModel, id: u16, bytes: Vec<u8>)
    requires
        sessiond_wf(m),
        received(bytes@) is None,
    ensures
        find_key(sessiond_step(m, SessiondEvent::SessionMessage(id, bytes)).0.sessions, id) is None,
        sessiond_step(m, SessiondEvent::SessionMessage(id, bytes)).1.last() == ActModel::PlayerQuit(id),
        find_key(sessiond_step(m, SessiondEvent::SessionDisconnect(id)).0.sessions, id) is None,
        sessiond_step(m, SessiondEvent::SessionDisconnect(id)).1.last() == ActModel::PlayerQuit(id),
{
    lemma_removed_key_absent(m.sessions, id);
}

/// After removing `id` from a table kept in order, the table has no entry
/// `id`.
proof fn lemma_removed_key_absent<V>(s: Seq<(u16, V)>, id: u16)
    requires
        keyed(s),
    ensures
        find_key(remove_key(s, id), id) is None,
{
    lemma_key_pos_bounds(s, id);
    let p = key_pos(s, id) as int;
    let ns = remove_key(s, id);
    lemma_key_pos_bounds(ns, id);
    let q = key_pos(ns, id) as int;
    if q < ns.len() && ns[q].0 == id {
        if p < s.len() && s[p].0 == id {
            if q < p {
                assert(ns[q] == s[q]);
            } else {
                assert(ns[q] == s[q + 1]);
                assert(s[p].0 < s[q + 1].0);
            }
        } else {
            if q < p {
                assert(s[q].0 < id);
            } else if q > p {
                assert(s[p].0 < s[q].0);
                assert(s[p].0 >= id);
            }
        }
    }
}

} // verus!
