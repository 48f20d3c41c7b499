//! What the session tasks decide, apart from their sockets and channels:
//! the serializer that turns game events into framed messages for each
//! connected player, and the choices a connection's reader makes.
use vstd::prelude::*;
use std::sync::Arc;
use crate::codec::{ToClientMsg, ToServerMsg, PartKind};
use crate::wire::encode_record;
use crate::beamout::{RecursivePartDescription, BeaminResponse, chars_of, push_all};
use crate::handshake::{trim, is_whitespace, trim_exec, is_whitespace_exec};
use crate::websocket::{OutboundWsMessage, frames, pong_message, close_message};

verus! {

// ---------------------------------------------------------------- framed messages

/// Calls `Arc::clone`: a second pointer to the same allocation, so the
/// same bytes.
#[verifier::external_body]
fn share_arc(a: &Arc<Vec<u8>>) -> (r: Arc<Vec<u8>>)
    ensures
        r == *a,
{
    Arc::clone(a)
}

impl OutboundWsMessage {
    /// The same frames, shared rather than copied.
    pub fn share(&self) -> (r: OutboundWsMessage)
        ensures
            r.0@ == self.0@,
    {
        OutboundWsMessage(share_arc(&self.0))
    }
}

/// The bytes a client receives for a message: its encoding, framed.
pub open spec fn framed(m: ToClientMsg) -> Seq<u8> {
    frames(encode_record(m@), true)
}

/// A message, encoded and framed.
pub fn frame_message(m: &ToClientMsg) -> (r: OutboundWsMessage)
    ensures
        r.0@ == framed(*m),
{
    let mut out: Vec<u8> = Vec::new();
    m.serialize(&mut out);
    proof {
        assert(out@ =~= encode_record(m@));
    }
    OutboundWsMessage::from(&out)
}

/// Where a body is after a tick: its position and rotation, each the bit
/// pattern of an `f32`.
#[derive(Copy, Clone, PartialEq, Eq, Structural, Debug)]
pub struct WorldUpdatePartMove {
    pub id: u16,
    pub x: u32,
    pub y: u32,
    pub rot_sin: u32,
    pub rot_cos: u32,
}

impl WorldUpdatePartMove {
    /// The message that moves the part on a client.
    pub open spec fn msg(self) -> ToClientMsg {
        ToClientMsg::MovePart {
            id: self.id,
            x: self.x,
            y: self.y,
            rotation_n: self.rot_cos,
            rotation_i: self.rot_sin,
        }
    }
}

/// The encodings of the moves, one after the other.
pub open spec fn moves_bytes(moves: Seq<WorldUpdatePartMove>) -> Seq<u8>
    decreases moves.len(),
{
    if moves.len() == 0 {
        seq![]
    } else {
        moves_bytes(moves.drop_last()) + encode_record(moves.last().msg()@)
    }
}

/// One frame with a pack header counting the moves (modulo 2^16), then
/// the moves.
pub open spec fn pack_bytes(moves: Seq<WorldUpdatePartMove>) -> Seq<u8> {
    frames(
        encode_record((ToClientMsg::MessagePack { count: moves.len() as u16 })@) + moves_bytes(moves),
        true,
    )
}

/// The moves as one framed pack.
pub fn pack_moves(moves: &Vec<WorldUpdatePartMove>) -> (r: OutboundWsMessage)
    ensures
        r.0@ == pack_bytes(moves@),
{
    let mut out: Vec<u8> = Vec::new();
    #[verifier::truncate]
    let count = moves.len() as u16;
    let header = ToClientMsg::MessagePack { count };
    header.serialize(&mut out);
    proof {
        assert(out@ =~= encode_record(header@));
        assert(moves@.subrange(0, 0) =~= Seq::<WorldUpdatePartMove>::empty());
        assert(moves_bytes(moves@.subrange(0, 0)) =~= Seq::<u8>::empty());
    }
    let mut i: usize = 0;
    while i < moves.len()
        invariant
            i <= moves@.len(),
            header@ == (ToClientMsg::MessagePack { count: moves@.len() as u16 })@,
            out@ == encode_record(header@) + moves_bytes(moves@.subrange(0, i as int)),
        decreases moves@.len() - i,
    {
        let p = moves[i];
        let m = ToClientMsg::MovePart {
            id: p.id,
            x: p.x,
            y: p.y,
            rotation_n: p.rot_cos,
            rotation_i: p.rot_sin,
        };
        m.serialize(&mut out);
        proof {
            let s = moves@.subrange(0, i + 1);
            assert(s.drop_last() =~= moves@.subrange(0, i as int));
            assert(s.last() == p);
        }
        i = i + 1;
    }
    proof {
        assert(moves@.subrange(0, moves@.len() as int) =~= moves@);
    }
    OutboundWsMessage::from(&out)
}

// ---------------------------------------------------------------- the serializer

/// One player's part of a world update.
pub struct PlayerWorldUpdate {
    pub id: u16,
    /// The players close enough to see this one's ship move (the distance
    /// test is made on floats, by the caller).
    pub seen_by: Vec<u16>,
    /// The ship's parts, core first.
    pub parts: Vec<WorldUpdatePartMove>,
    /// What this player alone gets after the tick.
    pub post_simulation: ToClientMsg,
}

/// What the game and the connections ask of the serializer.
pub enum ToSerializerEvent {
    Message(u16, ToClientMsg),
    MulticastMessage(Vec<u16>, ToClientMsg),
    Broadcast(ToClientMsg),
    /// The ships of the players, and the free parts.
    WorldUpdate(Vec<PlayerWorldUpdate>, Vec<WorldUpdatePartMove>),
    /// A connection's writer is ready for messages.
    NewWriter(u16),
    /// The connection wants the next world update.
    RequestUpdate(u16),
    SendPong(u16),
    DeleteWriter(u16),
}

/// What the serializer asks of its caller.
pub enum SerializerAction {
    /// Hand these messages to the writer of this connection.
    Send(u16, Vec<OutboundWsMessage>),
    /// Tell the game that this player left.
    PlayerQuit(u16),
    /// Let go of this connection's writer.
    DropWriter(u16),
}

pub ghost enum ActionModel {
    Send(u16, Seq<Seq<u8>>),
    PlayerQuit(u16),
    DropWriter(u16),
}

/// The bytes of each message of a queue.
pub open spec fn queue_bytes(q: Seq<OutboundWsMessage>) -> Seq<Seq<u8>> {
    q.map_values(|m: OutboundWsMessage| m.0@)
}

impl SerializerAction {
    pub open spec fn model(self) -> ActionModel {
        match self {
            SerializerAction::Send(id, q) => ActionModel::Send(id, queue_bytes(q@)),
            SerializerAction::PlayerQuit(id) => ActionModel::PlayerQuit(id),
            SerializerAction::DropWriter(id) => ActionModel::DropWriter(id),
        }
    }
}

pub open spec fn actions_model(a: Seq<SerializerAction>) -> Seq<ActionModel> {
    a.map_values(|x: SerializerAction| x.model())
}

/// A connection as the serializer sees it: what waits to be sent, and
/// whether it asked for the next world update.
pub ghost struct WriterEntry {
    pub id: u16,
    pub queue: Seq<Seq<u8>>,
    pub request_update: bool,
}

/// The writers, by increasing id.
pub open spec fn increasing(ws: Seq<WriterEntry>) -> bool {
    forall|i: int, j: int| 0 <= i < j < ws.len() ==> (#[trigger] ws[i]).id < (#[trigger] ws[j]).id
}

pub open spec fn pushed(e: WriterEntry, b: Seq<u8>) -> WriterEntry {
    WriterEntry { queue: e.queue.push(b), ..e }
}

/// `b` added to the queue of writer `id`, if there is one.
pub open spec fn deliver(ws: Seq<WriterEntry>, id: u16, b: Seq<u8>) -> Seq<WriterEntry> {
    ws.map_values(|e: WriterEntry| if e.id == id { pushed(e, b) } else { e })
}

/// `b` added to the queue of each writer named in `ids`, once per mention.
pub open spec fn multicast(ws: Seq<WriterEntry>, ids: Seq<u16>, b: Seq<u8>) -> Seq<WriterEntry>
    decreases ids.len(),
{
    if ids.len() == 0 {
        ws
    } else {
        deliver(multicast(ws, ids.drop_last(), b), ids.last(), b)
    }
}

/// What the writer `id` gets of the players' updates, in order: each
/// update it is close enough to see, and, after its own, its own
/// post-tick message.
pub open spec fn updates_for(id: u16, players: Seq<PlayerWorldUpdate>) -> Seq<Seq<u8>>
    decreases players.len(),
{
    if players.len() == 0 {
        seq![]
    } else {
        let p = players.last();
        updates_for(id, players.drop_last()) + (if p.seen_by@.contains(id) {
            seq![pack_bytes(p.parts@)]
        } else {
            seq![]
        }) + (if p.id == id {
            seq![framed(p.post_simulation)]
        } else {
            seq![]
        })
    }
}

/// A world update for one writer: only a writer that asked for it gets
/// anything, and it has to ask again for the next one.
pub open spec fn world_update_entry(
    e: WriterEntry,
    players: Seq<PlayerWorldUpdate>,
    free: Seq<WorldUpdatePartMove>,
) -> WriterEntry {
    if e.request_update {
        WriterEntry {
            id: e.id,
            queue: e.queue + updates_for(e.id, players) + seq![pack_bytes(free)],
            request_update: false,
        }
    } else {
        e
    }
}

/// The number of writers with an id below `id`.
pub open spec fn lower_count(ws: Seq<WriterEntry>, id: u16) -> nat
    decreases ws.len(),
{
    if ws.len() == 0 || ws[0].id >= id {
        0
    } else {
        1 + lower_count(ws.drop_first(), id)
    }
}

pub open spec fn has_at(ws: Seq<WriterEntry>, p: int, id: u16) -> bool {
    0 <= p < ws.len() && ws[p].id == id
}

pub open spec fn fresh(id: u16) -> WriterEntry {
    WriterEntry { id, queue: seq![], request_update: false }
}

/// A new writer `id` with nothing queued, in place of any earlier one.
pub open spec fn with_writer(ws: Seq<WriterEntry>, id: u16) -> Seq<WriterEntry> {
    let p = lower_count(ws, id) as int;
    if has_at(ws, p, id) {
        ws.update(p, fresh(id))
    } else {
        ws.insert(p, fresh(id))
    }
}

/// What one event does to the writers, and what it asks for at once.
pub open spec fn serializer_step(ws: Seq<WriterEntry>, ev: ToSerializerEvent) -> (
    Seq<WriterEntry>,
    Seq<ActionModel>,
) {
    match ev {
        ToSerializerEvent::Message(id, m) => (deliver(ws, id, framed(m)), seq![]),
        ToSerializerEvent::MulticastMessage(ids, m) => (multicast(ws, ids@, framed(m)), seq![]),
        ToSerializerEvent::Broadcast(m) => (
            ws.map_values(|e: WriterEntry| pushed(e, framed(m))),
            seq![],
        ),
        ToSerializerEvent::WorldUpdate(players, free) => (
            ws.map_values(|e: WriterEntry| world_update_entry(e, players@, free@)),
            seq![],
        ),
        ToSerializerEvent::NewWriter(id) => (with_writer(ws, id), seq![]),
        ToSerializerEvent::RequestUpdate(id) => (
            ws.map_values(
                |e: WriterEntry|
                    if e.id == id {
                        WriterEntry { request_update: true, ..e }
                    } else {
                        e
                    },
            ),
            seq![],
        ),
        ToSerializerEvent::SendPong(id) => {
            let p = lower_count(ws, id) as int;
            if has_at(ws, p, id) {
                (ws, seq![ActionModel::Send(id, seq![seq![0b10001010u8, 0b00000000u8]])])
            } else {
                (ws, seq![])
            }
        },
        ToSerializerEvent::DeleteWriter(id) => {
            let p = lower_count(ws, id) as int;
            if has_at(ws, p, id) {
                (
                    ws.remove(p),
                    seq![
                        ActionModel::Send(id, ws[p].queue.push(seq![0b10001000u8, 0b00000000u8])),
                        ActionModel::PlayerQuit(id),
                        ActionModel::DropWriter(id),
                    ],
                )
            } else {
                (ws, seq![])
            }
        },
    }
}

/// The events of a batch, one after the other.
pub open spec fn serializer_steps(ws: Seq<WriterEntry>, evs: Seq<ToSerializerEvent>) -> (
    Seq<WriterEntry>,
    Seq<ActionModel>,
)
    decreases evs.len(),
{
    if evs.len() == 0 {
        (ws, seq![])
    } else {
        let (w1, a1) = serializer_steps(ws, evs.drop_last());
        let (w2, a2) = serializer_step(w1, evs.last());
        (w2, a1 + a2)
    }
}

/// The end of a batch: every writer, by increasing id, is handed its
/// queue, empty or not.
pub open spec fn flush_actions(ws: Seq<WriterEntry>) -> Seq<ActionModel> {
    ws.map_values(|e: WriterEntry| ActionModel::Send(e.id, e.queue))
}

pub open spec fn flushed(ws: Seq<WriterEntry>) -> Seq<WriterEntry> {
    ws.map_values(|e: WriterEntry| WriterEntry { queue: seq![], ..e })
}

struct Writer {
    id: u16,
    queue: Vec<OutboundWsMessage>,
    request_update: bool,
}

impl Writer {
    spec fn model(self) -> WriterEntry {
        WriterEntry { id: self.id, queue: queue_bytes(self.queue@), request_update: self.request_update }
    }
}

/// Turns what the game and the connections say into framed messages, and
/// hands each connection's writer its messages once per batch.
pub struct Serializer {
    writers: Vec<Writer>,
}

proof fn lemma_lower_count(ws: Seq<WriterEntry>, id: u16, p: int)
    requires
        0 <= p <= ws.len(),
        forall|j: int| 0 <= j < p ==> (#[trigger] ws[j]).id < id,
        p < ws.len() ==> ws[p].id >= id,
    ensures
        lower_count(ws, id) == p,
    decreases p,
{
    if p > 0 {
        assert forall|j: int| 0 <= j < p - 1 implies (#[trigger] ws.drop_first()[j]).id < id by {
            assert(ws.drop_first()[j] == ws[j + 1]);
        }
        lemma_lower_count(ws.drop_first(), id, p - 1);
    }
}

impl Serializer {
    /// The writers, in order.
    pub closed spec fn entries(&self) -> Seq<WriterEntry> {
        self.writers@.map_values(|w: Writer| w.model())
    }

    /// The writers are kept by increasing id.
    pub closed spec fn wf(&self) -> bool {
        increasing(self.entries())
    }

    /// A serializer with no writer.
    pub fn new() -> (r: Serializer)
        ensures
            r.wf(),
            r.entries() == Seq::<WriterEntry>::empty(),
    {
        let r = Serializer { writers: Vec::new() };
        proof {
            assert(r.entries() =~= Seq::<WriterEntry>::empty());
        }
        r
    }

    /// Where the writer `id` is, or where it would go.
    fn position(&self, id: u16) -> (p: usize)
        requires
            self.wf(),
        ensures
            p == lower_count(self.entries(), id),
            p <= self.writers@.len(),
    {
        let ghost ws = self.entries();
        let mut p: usize = 0;
        while p < self.writers.len() && self.writers[p].id < id
            invariant
                p <= self.writers@.len(),
                ws == self.entries(),
                forall|j: int| 0 <= j < p ==> (#[trigger] ws[j]).id < id,
            decreases self.writers@.len() - p,
        {
            proof {
                assert(ws[p as int] == self.writers@[p as int].model());
            }
            p = p + 1;
        }
        proof {
            if p < self.writers@.len() {
                assert(ws[p as int] == self.writers@[p as int].model());
            }
            lemma_lower_count(ws, id, p as int);
        }
        p
    }
}

/// Writers whose ids did not change stay in increasing order.
proof fn lemma_same_ids(a: Seq<WriterEntry>, b: Seq<WriterEntry>)
    requires
        increasing(a),
        a.len() == b.len(),
        forall|j: int| 0 <= j < a.len() ==> (#[trigger] b[j]).id == a[j].id,
    ensures
        increasing(b),
{
    assert forall|i: int, j: int| 0 <= i < j < b.len() implies (#[trigger] b[i]).id < (#[trigger] b[j]).id by {
        assert(b[i].id == a[i].id);
        assert(b[j].id == a[j].id);
    }
}

/// What `lower_count` counts: the writers before it are below `id`, the
/// one at it (if any) is not.
proof fn lemma_lower_count_bounds(ws: Seq<WriterEntry>, id: u16)
    ensures
        lower_count(ws, id) <= ws.len(),
        forall|j: int| 0 <= j < lower_count(ws, id) ==> (#[trigger] ws[j]).id < id,
        lower_count(ws, id) < ws.len() ==> ws[lower_count(ws, id) as int].id >= id,
    decreases ws.len(),
{
    if ws.len() > 0 && ws[0].id < id {
        lemma_lower_count_bounds(ws.drop_first(), id);
        assert forall|j: int| 0 <= j < lower_count(ws, id) implies (#[trigger] ws[j]).id < id by {
            if j > 0 {
                assert(ws[j] == ws.drop_first()[j - 1]);
            }
        }
        if lower_count(ws, id) < ws.len() {
            assert(ws[lower_count(ws, id) as int] == ws.drop_first()[lower_count(ws.drop_first(), id) as int]);
        }
    }
}

/// Each writer's queue, after the messages in `ids` were delivered one by
/// one, keeps its id.
proof fn lemma_multicast_ids(ws: Seq<WriterEntry>, ids: Seq<u16>, b: Seq<u8>)
    ensures
        multicast(ws, ids, b).len() == ws.len(),
        forall|j: int| 0 <= j < ws.len() ==> (#[trigger] multicast(ws, ids, b)[j]).id == ws[j].id,
    decreases ids.len(),
{
    if ids.len() > 0 {
        lemma_multicast_ids(ws, ids.drop_last(), b);
    }
}

fn contains_id(v: &Vec<u16>, id: u16) -> (r: bool)
    ensures
        r == v@.contains(id),
{
    let mut i: usize = 0;
    while i < v.len()
        invariant
            i <= v@.len(),
            forall|j: int| 0 <= j < i ==> v@[j] != id,
        decreases v@.len() - i,
    {
        if v[i] == id {
            proof {
                assert(v@[i as int] == id);
            }
            return true;
        }
        i = i + 1;
    }
    false
}

impl Serializer {
    /// `m` added to the queue of the writer at `i`.
    fn push_at(&mut self, i: usize, m: &OutboundWsMessage)
        requires
            old(self).wf(),
            i < old(self).entries().len(),
        ensures
            final(self).wf(),
            final(self).entries() == old(self).entries().update(i as int, pushed(old(self).entries()[i as int], m.0@)),
    {
        let ghost before = self.entries();
        let ghost q = self.writers@[i as int].queue@;
        let ghost wi = self.writers@[i as int];
        let shared = m.share();
        let ghost sb = shared;
        self.writers[i].queue.push(shared);
        proof {
            assert(self.writers@[i as int].queue@ == q.push(sb));
            assert(self.writers@[i as int].id == wi.id);
            assert(self.writers@[i as int].request_update == wi.request_update);
            assert(before[i as int] == wi.model());
            assert(queue_bytes(q.push(sb)) =~= queue_bytes(q).push(m.0@));
            assert(self.entries()[i as int] == self.writers@[i as int].model());
            assert(self.entries() =~= before.update(i as int, pushed(before[i as int], m.0@)));
            lemma_same_ids(before, self.entries());
        }
    }

    /// The writer at `i` no longer waits for a world update, or now does.
    fn set_flag_at(&mut self, i: usize, flag: bool)
        requires
            old(self).wf(),
            i < old(self).entries().len(),
        ensures
            final(self).wf(),
            final(self).entries() == old(self).entries().update(
                i as int,
                WriterEntry { request_update: flag, ..old(self).entries()[i as int] },
            ),
    {
        let ghost before = self.entries();
        let ghost wi = self.writers@[i as int];
        self.writers[i].request_update = flag;
        proof {
            assert(self.writers@[i as int].id == wi.id);
            assert(self.writers@[i as int].queue == wi.queue);
            assert(before[i as int] == wi.model());
            assert(self.entries()[i as int] == self.writers@[i as int].model());
            assert(self.entries() =~= before.update(
                i as int,
                WriterEntry { request_update: flag, ..before[i as int] },
            ));
            lemma_same_ids(before, self.entries());
        }
    }

    /// `m` added to the queue of writer `id`, if there is one.
    fn deliver_to(&mut self, id: u16, m: &OutboundWsMessage)
        requires
            old(self).wf(),
        ensures
            final(self).wf(),
            final(self).entries() == deliver(old(self).entries(), id, m.0@),
    {
        let ghost old_ws = self.entries();
        let n = self.writers.len();
        let mut i: usize = 0;
        while i < n
            invariant
                self.wf(),
                n == self.entries().len() == old_ws.len(),
                i <= n,
                forall|j: int| 0 <= j < i ==> (#[trigger] self.entries()[j]) == (if old_ws[j].id == id { pushed(old_ws[j], m.0@) } else { old_ws[j] }),
                forall|j: int| i <= j < n ==> (#[trigger] self.entries()[j]) == old_ws[j],
            decreases n - i,
        {
            if self.writers[i].id == id {
                proof {
                    assert(self.entries()[i as int] == self.writers@[i as int].model());
                }
                self.push_at(i, m);
            } else {
                proof {
                    assert(self.entries()[i as int] == self.writers@[i as int].model());
                }
            }
            i = i + 1;
        }
        proof {
            assert(self.entries() =~= deliver(old_ws, id, m.0@));
        }
    }

    /// `m` added to every queue.
    fn broadcast(&mut self, m: &OutboundWsMessage)
        requires
            old(self).wf(),
        ensures
            final(self).wf(),
            final(self).entries() == old(self).entries().map_values(|e: WriterEntry| pushed(e, m.0@)),
    {
        let ghost old_ws = self.entries();
        let n = self.writers.len();
        let mut i: usize = 0;
        while i < n
            invariant
                self.wf(),
                n == self.entries().len() == old_ws.len(),
                i <= n,
                forall|j: int| 0 <= j < i ==> (#[trigger] self.entries()[j]) == pushed(old_ws[j], m.0@),
                forall|j: int| i <= j < n ==> (#[trigger] self.entries()[j]) == old_ws[j],
            decreases n - i,
        {
            self.push_at(i, m);
            i = i + 1;
        }
        proof {
            assert(self.entries() =~= old_ws.map_values(|e: WriterEntry| pushed(e, m.0@)));
        }
    }

    /// Writer `id`, if there is one, waits for the next world update.
    fn request_update(&mut self, id: u16)
        requires
            old(self).wf(),
        ensures
            final(self).wf(),
            final(self).entries() == old(self).entries().map_values(
                |e: WriterEntry|
                    if e.id == id {
                        WriterEntry { request_update: true, ..e }
                    } else {
                        e
                    },
            ),
    {
        let ghost old_ws = self.entries();
        let n = self.writers.len();
        let mut i: usize = 0;
        while i < n
            invariant
                self.wf(),
                n == self.entries().len() == old_ws.len(),
                i <= n,
                forall|j: int| 0 <= j < i ==> (#[trigger] self.entries()[j]) == (if old_ws[j].id == id { WriterEntry { request_update: true, ..old_ws[j] } } else { old_ws[j] }),
                forall|j: int| i <= j < n ==> (#[trigger] self.entries()[j]) == old_ws[j],
            decreases n - i,
        {
            proof {
                assert(self.entries()[i as int] == self.writers@[i as int].model());
            }
            if self.writers[i].id == id {
                self.set_flag_at(i, true);
            }
            i = i + 1;
        }
        proof {
            assert(self.entries() =~= old_ws.map_values(
                |e: WriterEntry|
                    if e.id == id {
                        WriterEntry { request_update: true, ..e }
                    } else {
                        e
                    },
            ));
        }
    }
}

/// A writer's entry while the players' updates are handed out: only a
/// writer that asked gets them.
pub open spec fn partial_update(e: WriterEntry, players: Seq<PlayerWorldUpdate>) -> WriterEntry {
    if e.request_update {
        WriterEntry { queue: e.queue + updates_for(e.id, players), ..e }
    } else {
        e
    }
}

proof fn lemma_updates_for_step(id: u16, players: Seq<PlayerWorldUpdate>, k: int)
    requires
        0 <= k < players.len(),
    ensures
        updates_for(id, players.subrange(0, k + 1)) == updates_for(id, players.subrange(0, k)) + (
        if players[k].seen_by@.contains(id) {
            seq![pack_bytes(players[k].parts@)]
        } else {
            seq![]
        }) + (if players[k].id == id {
            seq![framed(players[k].post_simulation)]
        } else {
            seq![]
        }),
{
    let s = players.subrange(0, k + 1);
    assert(s.drop_last() =~= players.subrange(0, k));
    assert(s.last() == players[k]);
}

impl Serializer {
    /// Hands out the players' updates and the free parts to the writers
    /// that asked for them.
    fn world_update(&mut self, players: &Vec<PlayerWorldUpdate>, free: &Vec<WorldUpdatePartMove>)
        requires
            old(self).wf(),
        ensures
            final(self).wf(),
            final(self).entries() == old(self).entries().map_values(
                |e: WriterEntry| world_update_entry(e, players@, free@),
            ),
    {
        let ghost old_ws = self.entries();
        let n = self.writers.len();
        proof {
            assert forall|j: int| 0 <= j < n implies (#[trigger] self.entries()[j]) == partial_update(old_ws[j], players@.subrange(0, 0)) by {
                assert(players@.subrange(0, 0) =~= Seq::<PlayerWorldUpdate>::empty());
                assert(old_ws[j].queue + Seq::<Seq<u8>>::empty() =~= old_ws[j].queue);
            }
        }
        let mut k: usize = 0;
        while k < players.len()
            invariant
                self.wf(),
                n == self.entries().len() == old_ws.len(),
                k <= players@.len(),
                forall|j: int| 0 <= j < n ==> (#[trigger] self.entries()[j]) == partial_update(old_ws[j], players@.subrange(0, k as int)),
            decreases players@.len() - k,
        {
            let p = &players[k];
            let pack = pack_moves(&p.parts);
            let post = frame_message(&p.post_simulation);
            let ghost at_start = self.entries();
            let mut i: usize = 0;
            while i < n
                invariant
                    self.wf(),
                    n == self.entries().len() == old_ws.len() == at_start.len(),
                    i <= n,
                    k < players@.len(),
                    *p == players@[k as int],
                    pack.0@ == pack_bytes(p.parts@),
                    post.0@ == framed(p.post_simulation),
                    forall|j: int| 0 <= j < n ==> (#[trigger] at_start[j]) == partial_update(old_ws[j], players@.subrange(0, k as int)),
                    forall|j: int| 0 <= j < i ==> (#[trigger] self.entries()[j]) == partial_update(old_ws[j], players@.subrange(0, k + 1)),
                    forall|j: int| i <= j < n ==> (#[trigger] self.entries()[j]) == at_start[j],
                decreases n - i,
            {
                proof {
                    assert(self.entries()[i as int] == self.writers@[i as int].model());
                    lemma_updates_for_step(old_ws[i as int].id, players@, k as int);
                }
                let ghost e0 = self.entries()[i as int];
                if self.writers[i].request_update {
                    let wid = self.writers[i].id;
                    if contains_id(&p.seen_by, wid) {
                        self.push_at(i, &pack);
                    }
                    let ghost e1 = self.entries()[i as int];
                    if p.id == wid {
                        self.push_at(i, &post);
                    }
                    proof {
                        let e2 = self.entries()[i as int];
                        let a = if p.seen_by@.contains(wid) { seq![pack_bytes(p.parts@)] } else { seq![] };
                        let b = if p.id == wid { seq![framed(p.post_simulation)] } else { seq![] };
                        assert(e1.queue =~= e0.queue + a);
                        assert(e2.queue =~= e1.queue + b);
                        assert(e2.queue =~= old_ws[i as int].queue + updates_for(wid, players@.subrange(0, k + 1)));
                    }
                }
                i = i + 1;
            }
            k = k + 1;
        }
        proof {
            assert(players@.subrange(0, players@.len() as int) =~= players@);
        }
        let free_pack = pack_moves(free);
        let mut i: usize = 0;
        while i < n
            invariant
                self.wf(),
                n == self.entries().len() == old_ws.len(),
                i <= n,
                free_pack.0@ == pack_bytes(free@),
                forall|j: int| 0 <= j < i ==> (#[trigger] self.entries()[j]) == world_update_entry(old_ws[j], players@, free@),
                forall|j: int| i <= j < n ==> (#[trigger] self.entries()[j]) == partial_update(old_ws[j], players@),
            decreases n - i,
        {
            proof {
                assert(self.entries()[i as int] == self.writers@[i as int].model());
            }
            if self.writers[i].request_update {
                self.push_at(i, &free_pack);
                self.set_flag_at(i, false);
                proof {
                    let e = self.entries()[i as int];
                    let o = old_ws[i as int];
                    assert(e.queue =~= o.queue + updates_for(o.id, players@) + seq![pack_bytes(free@)]);
                }
            }
            i = i + 1;
        }
        proof {
            assert(self.entries() =~= old_ws.map_values(|e: WriterEntry| world_update_entry(e, players@, free@)));
        }
    }
}

impl Serializer {
    /// A new writer `id` with nothing queued, in place of any earlier one.
    fn add_writer(&mut self, id: u16)
        requires
            old(self).wf(),
        ensures
            final(self).wf(),
            final(self).entries() == with_writer(old(self).entries(), id),
    {
        let ghost ws = self.entries();
        let p = self.position(id);
        proof {
            lemma_lower_count_bounds(ws, id);
        }
        let w = Writer { id, queue: Vec::new(), request_update: false };
        proof {
            assert(queue_bytes(w.queue@) =~= Seq::<Seq<u8>>::empty());
            assert(w.model() == fresh(id));
        }
        if p < self.writers.len() && self.writers[p].id == id {
            proof {
                assert(ws[p as int] == self.writers@[p as int].model());
            }
            self.writers[p] = w;
            proof {
                assert(self.entries() =~= ws.update(p as int, fresh(id)));
                lemma_same_ids(ws, self.entries());
            }
        } else {
            proof {
                if p < ws.len() {
                    assert(ws[p as int] == self.writers@[p as int].model());
                }
            }
            self.writers.insert(p, w);
            proof {
                let ns = self.entries();
                assert(ns =~= ws.insert(p as int, fresh(id)));
                assert forall|a: int, b: int| 0 <= a < b < ns.len() implies (#[trigger] ns[a]).id < (#[trigger] ns[b]).id by {
                    if b < p {
                        assert(ns[a] == ws[a] && ns[b] == ws[b]);
                    } else if b == p {
                        assert(ns[a] == ws[a]);
                    } else if a < p {
                        assert(ns[a] == ws[a] && ns[b] == ws[b - 1]);
                        assert(ws[p as int].id >= id);
                        if b - 1 > p {
                            assert(ws[p as int].id < ws[b - 1].id);
                        }
                    } else if a == p {
                        assert(ns[b] == ws[b - 1]);
                        assert(ws[p as int].id >= id);
                        assert(ws[p as int].id != id);
                        if b - 1 > p {
                            assert(ws[p as int].id < ws[b - 1].id);
                        }
                    } else {
                        assert(ns[a] == ws[a - 1] && ns[b] == ws[b - 1]);
                    }
                }
            }
        }
    }

    /// Writer `id`, if there is one, is let go: its queue goes out with a
    /// closing frame, and the game hears that the player left.
    fn delete_writer(&mut self, id: u16, actions: &mut Vec<SerializerAction>)
        requires
            old(self).wf(),
        ensures
            final(self).wf(),
            final(self).entries() == serializer_step(old(self).entries(), ToSerializerEvent::DeleteWriter(id)).0,
            actions_model(final(actions)@) == actions_model(old(actions)@) + serializer_step(
                old(self).entries(),
                ToSerializerEvent::DeleteWriter(id),
            ).1,
    {
        let ghost ws = self.entries();
        let ghost acts = actions_model(actions@);
        let p = self.position(id);
        if p < self.writers.len() && self.writers[p].id == id {
            proof {
                assert(ws[p as int] == self.writers@[p as int].model());
            }
            let w = self.writers.remove(p);
            proof {
                let ns = self.entries();
                assert(ns =~= ws.remove(p as int));
                assert forall|a: int, b: int| 0 <= a < b < ns.len() implies (#[trigger] ns[a]).id < (#[trigger] ns[b]).id by {
                    if b < p {
                        assert(ns[a] == ws[a] && ns[b] == ws[b]);
                    } else if a < p {
                        assert(ns[a] == ws[a] && ns[b] == ws[b + 1]);
                    } else {
                        assert(ns[a] == ws[a + 1] && ns[b] == ws[b + 1]);
                    }
                }
            }
            let mut q = w.queue;
            let ghost q0 = q@;
            let close = close_message();
            let ghost cb = close;
            q.push(close);
            proof {
                assert(q@ == q0.push(cb));
                assert(queue_bytes(q@) =~= queue_bytes(q0).push(seq![0b10001000u8, 0b00000000u8]));
            }
            actions.push(SerializerAction::Send(id, q));
            actions.push(SerializerAction::PlayerQuit(id));
            actions.push(SerializerAction::DropWriter(id));
            proof {
                assert(actions_model(actions@) =~= acts + seq![
                    ActionModel::Send(id, ws[p as int].queue.push(seq![0b10001000u8, 0b00000000u8])),
                    ActionModel::PlayerQuit(id),
                    ActionModel::DropWriter(id),
                ]);
            }
        } else {
            proof {
                if p < ws.len() {
                    assert(ws[p as int] == self.writers@[p as int].model());
                }
                assert(actions_model(actions@) =~= acts + Seq::<ActionModel>::empty());
            }
        }
    }

    /// Writer `id`, if there is one, gets a pong at once.
    fn pong(&mut self, id: u16, actions: &mut Vec<SerializerAction>)
        requires
            old(self).wf(),
        ensures
            *final(self) == *old(self),
            actions_model(final(actions)@) == actions_model(old(actions)@) + serializer_step(
                old(self).entries(),
                ToSerializerEvent::SendPong(id),
            ).1,
    {
        let ghost ws = self.entries();
        let ghost acts = actions_model(actions@);
        let p = self.position(id);
        if p < self.writers.len() && self.writers[p].id == id {
            proof {
                assert(ws[p as int] == self.writers@[p as int].model());
            }
            let mut q: Vec<OutboundWsMessage> = Vec::new();
            q.push(pong_message());
            proof {
                assert(queue_bytes(q@) =~= seq![seq![0b10001010u8, 0b00000000u8]]);
            }
            actions.push(SerializerAction::Send(id, q));
            proof {
                assert(actions_model(actions@) =~= acts + seq![ActionModel::Send(id, seq![seq![0b10001010u8, 0b00000000u8]])]);
            }
        } else {
            proof {
                if p < ws.len() {
                    assert(ws[p as int] == self.writers@[p as int].model());
                }
                assert(actions_model(actions@) =~= acts + Seq::<ActionModel>::empty());
            }
        }
    }

    /// Applies one event: the writers change as `serializer_step` says, and
    /// what the step asks for at once is added to `actions`.
    pub fn handle_event(&mut self, ev: &ToSerializerEvent, actions: &mut Vec<SerializerAction>)
        requires
            old(self).wf(),
        ensures
            final(self).wf(),
            final(self).entries() == serializer_step(old(self).entries(), *ev).0,
            actions_model(final(actions)@) == actions_model(old(actions)@) + serializer_step(old(self).entries(), *ev).1,
    {
        let ghost acts = actions_model(actions@);
        proof {
            assert(acts + Seq::<ActionModel>::empty() =~= acts);
        }
        match ev {
            ToSerializerEvent::Message(id, m) => {
                let out = frame_message(m);
                self.deliver_to(*id, &out);
            },
            ToSerializerEvent::MulticastMessage(ids, m) => {
                let out = frame_message(m);
                let ghost ws = self.entries();
                let mut k: usize = 0;
                proof {
                    assert(ids@.subrange(0, 0) =~= Seq::<u16>::empty());
                }
                while k < ids.len()
                    invariant
                        self.wf(),
                        k <= ids@.len(),
                        out.0@ == framed(*m),
                        self.entries() == multicast(ws, ids@.subrange(0, k as int), out.0@),
                    decreases ids@.len() - k,
                {
                    self.deliver_to(ids[k], &out);
                    proof {
                        let s = ids@.subrange(0, k + 1);
                        assert(s.drop_last() =~= ids@.subrange(0, k as int));
                        assert(s.last() == ids@[k as int]);
                    }
                    k = k + 1;
                }
                proof {
                    assert(ids@.subrange(0, ids@.len() as int) =~= ids@);
                }
            },
            ToSerializerEvent::Broadcast(m) => {
                let out = frame_message(m);
                self.broadcast(&out);
            },
            ToSerializerEvent::WorldUpdate(players, free) => {
                self.world_update(players, free);
            },
            ToSerializerEvent::NewWriter(id) => {
                self.add_writer(*id);
            },
            ToSerializerEvent::RequestUpdate(id) => {
                self.request_update(*id);
            },
            ToSerializerEvent::SendPong(id) => {
                self.pong(*id, actions);
            },
            ToSerializerEvent::DeleteWriter(id) => {
                self.delete_writer(*id, actions);
            },
        }
    }

    /// The end of a batch: each writer, by increasing id, is handed its
    /// queue, and the queues are emptied.
    pub fn flush(&mut self, actions: &mut Vec<SerializerAction>)
        requires
            old(self).wf(),
        ensures
            final(self).wf(),
            final(self).entries() == flushed(old(self).entries()),
            actions_model(final(actions)@) == actions_model(old(actions)@) + flush_actions(old(self).entries()),
    {
        let ghost old_ws = self.entries();
        let ghost acts = actions_model(actions@);
        let n = self.writers.len();
        let mut i: usize = 0;
        while i < n
            invariant
                self.wf(),
                n == self.entries().len() == old_ws.len(),
                i <= n,
                forall|j: int| 0 <= j < i ==> (#[trigger] self.entries()[j]) == (WriterEntry { queue: seq![], ..old_ws[j] }),
                forall|j: int| i <= j < n ==> (#[trigger] self.entries()[j]) == old_ws[j],
                actions_model(actions@) == acts + flush_actions(old_ws.subrange(0, i as int)),
            decreases n - i,
        {
            let ghost before = self.entries();
            let ghost wi = self.writers@[i as int];
            proof {
                assert(before[i as int] == wi.model());
            }
            let mut q: Vec<OutboundWsMessage> = Vec::new();
            std::mem::swap(&mut q, &mut self.writers[i].queue);
            let id = self.writers[i].id;
            proof {
                assert(q@ == wi.queue@);
                assert(self.writers@[i as int].queue@ == Seq::<OutboundWsMessage>::empty());
                assert(self.writers@[i as int].id == wi.id);
                assert(self.writers@[i as int].request_update == wi.request_update);
                assert(queue_bytes(Seq::<OutboundWsMessage>::empty()) =~= Seq::<Seq<u8>>::empty());
                assert(self.entries()[i as int] == self.writers@[i as int].model());
                assert forall|j: int| 0 <= j < n && j != i implies #[trigger] self.entries()[j] == before[j] by {}
                lemma_same_ids(before, self.entries());
            }
            let ghost a0 = actions_model(actions@);
            actions.push(SerializerAction::Send(id, q));
            proof {
                assert(actions_model(actions@) =~= a0.push(ActionModel::Send(id, old_ws[i as int].queue)));
                assert(flush_actions(old_ws.subrange(0, i + 1)) =~= flush_actions(old_ws.subrange(0, i as int)).push(
                    ActionModel::Send(old_ws[i as int].id, old_ws[i as int].queue),
                ));
            }
            i = i + 1;
        }
        proof {
            assert(old_ws.subrange(0, n as int) =~= old_ws);
            assert(self.entries() =~= flushed(old_ws));
        }
    }

    /// Handles a batch of events one after the other, then hands each
    /// writer its queue.
    pub fn handle_batch(&mut self, events: &Vec<ToSerializerEvent>) -> (r: Vec<SerializerAction>)
        requires
            old(self).wf(),
        ensures
            final(self).wf(),
            final(self).entries() == flushed(serializer_steps(old(self).entries(), events@).0),
            actions_model(r@) == serializer_steps(old(self).entries(), events@).1 + flush_actions(
                serializer_steps(old(self).entries(), events@).0,
            ),
    {
        let ghost ws = self.entries();
        let mut actions: Vec<SerializerAction> = Vec::new();
        proof {
            assert(events@.subrange(0, 0) =~= Seq::<ToSerializerEvent>::empty());
            assert(actions_model(actions@) =~= Seq::<ActionModel>::empty());
        }
        let mut k: usize = 0;
        while k < events.len()
            invariant
                self.wf(),
                k <= events@.len(),
                self.entries() == serializer_steps(ws, events@.subrange(0, k as int)).0,
                actions_model(actions@) == serializer_steps(ws, events@.subrange(0, k as int)).1,
            decreases events@.len() - k,
        {
            self.handle_event(&events[k], &mut actions);
            proof {
                let s = events@.subrange(0, k + 1);
                assert(s.drop_last() =~= events@.subrange(0, k as int));
                assert(s.last() == events@[k as int]);
            }
            k = k + 1;
        }
        proof {
            assert(events@.subrange(0, events@.len() as int) =~= events@);
        }
        self.flush(&mut actions);
        actions
    }
}

// ---------------------------------------------------------------- a connection's reader

/// The name of a player who gave none.
pub open spec fn unnamed() -> Seq<char> {
    seq!['U', 'n', 'n', 'a', 'm', 'e', 'd']
}

/// The name the server speaks under in the chat.
pub open spec fn server_name() -> Seq<char> {
    seq!['S', 'e', 'r', 'v', 'e', 'r']
}

/// What a player who may not use a command is told.
pub open spec fn cannot_use() -> Seq<char> {
    seq!['Y', 'o', 'u', ' ', 'c', 'a', 'n', 'n', 'o', 't', ' ', 'u', 's', 'e', ' ', 't', 'h', 'a', 't', ' ', 'c', 'o', 'm', 'm', 'a', 'n', 'd']
}

/// The color of that warning.
pub open spec fn warning_color() -> Seq<char> {
    seq!['#', 'F', 'F', '0', '0', '0', '0']
}

/// The color of players' chat lines.
pub open spec fn chat_color() -> Seq<char> {
    seq!['#', 'd', 'd', '5', '5', 'f', 'f']
}

/// What the shrug command says.
pub open spec fn shrug_face() -> Seq<char> {
    seq!['¯', '\\', '_', '(', 'ツ', ')', '_', '/', '¯']
}

/// The shrug command.
pub open spec fn shrug_command() -> Seq<char> {
    seq!['/', 's', 'h', 'r', 'u', 'g']
}

fn literal_unnamed() -> (r: String)
    ensures
        r@ == unnamed(),
{
    let r = "Unnamed".to_owned();
    proof {
        reveal_strlit("Unnamed");
        assert(r@ =~= unnamed());
    }
    r
}

pub(crate) fn literal_server_name() -> (r: String)
    ensures
        r@ == server_name(),
{
    let r = "Server".to_owned();
    proof {
        reveal_strlit("Server");
        assert(r@ =~= server_name());
    }
    r
}

pub(crate) fn literal_cannot_use() -> (r: String)
    ensures
        r@ == cannot_use(),
{
    let r = "You cannot use that command".to_owned();
    proof {
        reveal_strlit("You cannot use that command");
        assert(r@ =~= cannot_use());
    }
    r
}

pub(crate) fn literal_warning_color() -> (r: String)
    ensures
        r@ == warning_color(),
{
    let r = "#FF0000".to_owned();
    proof {
        reveal_strlit("#FF0000");
        assert(r@ =~= warning_color());
    }
    r
}

fn literal_chat_color() -> (r: String)
    ensures
        r@ == chat_color(),
{
    let r = "#dd55ff".to_owned();
    proof {
        reveal_strlit("#dd55ff");
        assert(r@ =~= chat_color());
    }
    r
}

fn literal_shrug_face() -> (r: String)
    ensures
        r@ == shrug_face(),
{
    let r = "¯\\_(ツ)_/¯".to_owned();
    proof {
        reveal_strlit("¯\\_(ツ)_/¯");
        assert(r@ =~= shrug_face());
    }
    r
}

/// The name a player plays under: the one sent, trimmed, or "Unnamed" if
/// nothing is left.
pub open spec fn spec_player_name(raw: Seq<char>) -> Seq<char> {
    if trim(raw).len() == 0 {
        unnamed()
    } else {
        trim(raw)
    }
}

pub fn player_name(raw: &String) -> (r: String)
    ensures
        r@ == spec_player_name(raw@),
{
    let chars = chars_of(raw.as_str());
    let t = trim_exec(&chars);
    if t.len() == 0 {
        literal_unnamed()
    } else {
        let mut out = String::new();
        push_all(&mut out, &t, 0, t.len());
        proof {
            assert(t@.subrange(0, t@.len() as int) =~= t@);
            assert(out@ =~= t@);
        }
        out
    }
}

/// A chat line whose first word is the shrug command (the line starts
/// with "/shrug", and ends there or goes on after whitespace).
pub open spec fn is_shrug(msg: Seq<char>) -> bool {
    &&& msg.len() >= 6
    &&& msg.subrange(0, 6) == shrug_command()
    &&& (msg.len() == 6 || is_whitespace(msg[6]))
}

fn is_shrug_exec(msg: &Vec<char>) -> (r: bool)
    ensures
        r == is_shrug(msg@),
{
    if msg.len() < 6 {
        return false;
    }
    let ok = msg[0] == '/' && msg[1] == 's' && msg[2] == 'h' && msg[3] == 'r' && msg[4] == 'u'
        && msg[5] == 'g';
    proof {
        let c = shrug_command();
        if ok {
            assert(msg@.subrange(0, 6) =~= c);
        } else {
            if msg@.subrange(0, 6) == c {
                assert(msg@.subrange(0, 6)[0] == msg@[0]);
                assert(msg@.subrange(0, 6)[1] == msg@[1]);
                assert(msg@.subrange(0, 6)[2] == msg@[2]);
                assert(msg@.subrange(0, 6)[3] == msg@[3]);
                assert(msg@.subrange(0, 6)[4] == msg@[4]);
                assert(msg@.subrange(0, 6)[5] == msg@[5]);
            }
        }
    }
    ok && (msg.len() == 6 || is_whitespace_exec(msg[6]))
}

/// What a connection tells the game.
pub enum ToGameEvent {
    NewPlayer { id: u16, name: String, parts: RecursivePartDescription, beamout_token: Option<String> },
    PlayerMessage { id: u16, msg: ToServerMsg },
    PlayerQuit { id: u16 },
    AdminCommand { id: u16, command: String },
}

/// Where a connection's reader is.
pub enum ReaderPhase {
    /// The WebSocket is open; the first message must be a handshake.
    AwaitingHandshake,
    /// The account service is being asked about the player's session.
    AwaitingBeamin { name: String },
    /// The player is in the game.
    Playing { name: String, is_admin: bool },
    /// The connection is over.
    Closed,
}

/// What happens on a connection.
pub enum ReaderEvent {
    Ping,
    Pong,
    /// The socket failed, ended, or sent a frame the server refuses.
    ReadError,
    /// A binary message, decoded.
    Message(Result<ToServerMsg, ()>),
    /// The account service answered, or could not be asked.
    Beamin(Option<BeaminResponse>),
}

/// What the reader asks of its caller.
pub enum ReaderAction {
    /// Write a pong on the socket.
    QueuePong,
    /// Ask the account service about this session.
    RequestBeamin(Option<String>),
    ToGame(ToGameEvent),
    ToSerializer(ToSerializerEvent),
    /// Start the connection's writer and hand it to the serializer.
    StartWriter,
    /// Stop reading: the connection is over.
    Close,
}

/// `a` is a chat line to everyone from `user`, saying `text` in `color`.
pub open spec fn broadcast_chat(a: ReaderAction, user: Seq<char>, text: Seq<char>, color: Seq<char>) -> bool {
    a matches ReaderAction::ToSerializer(
        ToSerializerEvent::Broadcast(ToClientMsg::ChatMessage { username, msg, color: c }),
    ) && username@ == user && msg@ == text && c@ == color
}

/// `a` is a chat line to player `id` alone, from `user`, saying `text` in
/// `color`.
pub open spec fn private_chat(a: ReaderAction, id: u16, user: Seq<char>, text: Seq<char>, color: Seq<char>) -> bool {
    a matches ReaderAction::ToSerializer(
        ToSerializerEvent::Message(to, ToClientMsg::ChatMessage { username, msg, color: c }),
    ) && to == id && username@ == user && msg@ == text && c@ == color
}

/// What a chat line of a player in the game leads to: the shrug command
/// shrugs to everyone; another command goes to the game from an admin,
/// and earns anyone else a warning; a line that is no command goes to
/// everyone under the player's name.
pub open spec fn chat_handled(a: ReaderAction, id: u16, name: Seq<char>, is_admin: bool, msg: Seq<char>) -> bool {
    if msg[0] == '/' {
        if is_shrug(msg) {
            broadcast_chat(a, name, shrug_face(), chat_color())
        } else if is_admin {
            a matches ReaderAction::ToGame(ToGameEvent::AdminCommand { id: i, command }) && i == id
                && command@ == msg
        } else {
            private_chat(a, id, server_name(), cannot_use(), warning_color())
        }
    } else {
        broadcast_chat(a, name, msg, chat_color())
    }
}

fn chat(id: u16, name: &String, is_admin: bool, msg: String) -> (r: ReaderAction)
    requires
        msg@.len() > 0,
    ensures
        chat_handled(r, id, name@, is_admin, msg@),
{
    let chars = chars_of(msg.as_str());
    if chars[0] == '/' {
        if is_shrug_exec(&chars) {
            ReaderAction::ToSerializer(
                ToSerializerEvent::Broadcast(
                    ToClientMsg::ChatMessage {
                        username: name.clone(),
                        msg: literal_shrug_face(),
                        color: literal_chat_color(),
                    },
                ),
            )
        } else if is_admin {
            ReaderAction::ToGame(ToGameEvent::AdminCommand { id, command: msg })
        } else {
            ReaderAction::ToSerializer(
                ToSerializerEvent::Message(
                    id,
                    ToClientMsg::ChatMessage {
                        username: literal_server_name(),
                        msg: literal_cannot_use(),
                        color: literal_warning_color(),
                    },
                ),
            )
        }
    } else {
        ReaderAction::ToSerializer(
            ToSerializerEvent::Broadcast(
                ToClientMsg::ChatMessage { username: name.clone(), msg, color: literal_chat_color() },
            ),
        )
    }
}

/// The ship a player gets when the account service has none for them.
pub open spec fn default_layout(d: RecursivePartDescription) -> bool {
    d.kind == PartKind::Core && d.attachments@.len() == 0
}

/// A connection's reader: what it has learned of the player so far.
pub struct ConnectionReader {
    pub id: u16,
    pub phase: ReaderPhase,
}

/// `acts` ends the connection of a player in the game: the serializer lets
/// go of its writer, and the reading stops.
pub open spec fn ends_playing(acts: Seq<ReaderAction>, id: u16) -> bool {
    &&& acts.len() == 2
    &&& (acts[0] matches ReaderAction::ToSerializer(ToSerializerEvent::DeleteWriter(i)) && i == id)
    &&& acts[1] is Close
}

impl ConnectionReader {
    /// The reader of a connection whose WebSocket was just accepted.
    pub fn new(id: u16) -> (r: ConnectionReader)
        ensures
            r.id == id,
            r.phase is AwaitingHandshake,
    {
        ConnectionReader { id, phase: ReaderPhase::AwaitingHandshake }
    }

    /// What the reader does with one event.
    ///
    /// Before the handshake, a ping is answered at once; the handshake
    /// names the player (see `spec_player_name`) and asks the account
    /// service about the session; anything else ends the connection.  When
    /// the service answers, the game gets the new player, with the saved
    /// ship or a lone core, and the writer starts.  In the game, chat lines
    /// are handled here (`chat_handled`), update requests and pings go to
    /// the serializer, and every other message goes to the game; an
    /// undecodable message, a pong or a failed read ends the connection.
    /// Events the phase does not expect change nothing.
    pub fn step(&mut self, ev: ReaderEvent) -> (r: Vec<ReaderAction>)
        requires
            old(self).phase is Playing ==> !(ev matches ReaderEvent::Message(
                Ok(ToServerMsg::SendChatMessage { msg }),
            ) && msg@.len() == 0),
        ensures
            final(self).id == old(self).id,
            ({
                let id = old(self).id;
                match (old(self).phase, ev) {
                    (ReaderPhase::AwaitingHandshake, ReaderEvent::Ping) => final(self).phase is AwaitingHandshake
                        && r@.len() == 1 && r@[0] is QueuePong,
                    (ReaderPhase::AwaitingHandshake, ReaderEvent::Message(Ok(ToServerMsg::Handshake { client, session, name }))) =>
                        (final(self).phase matches ReaderPhase::AwaitingBeamin { name: n } && n@ == spec_player_name(name@))
                        && r@.len() == 1 && r@[0] == ReaderAction::RequestBeamin(session),
                    (ReaderPhase::AwaitingHandshake, _) => final(self).phase is Closed && r@.len() == 1 && r@[0] is Close,
                    (ReaderPhase::AwaitingBeamin { name }, ReaderEvent::Beamin(data)) => {
                        &&& final(self).phase matches ReaderPhase::Playing { name: n, is_admin }
                            && n@ == name@ && is_admin == (data matches Some(b) && b.is_admin)
                        &&& r@.len() == 2 && r@[1] is StartWriter
                        &&& r@[0] matches ReaderAction::ToGame(ToGameEvent::NewPlayer { id: i, name: n, parts, beamout_token })
                            && i == id && n@ == name@ && match data {
                                Some(b) => beamout_token == Some(b.beamout_token) && match b.layout {
                                    Some(l) => parts == l,
                                    None => default_layout(parts),
                                },
                                None => beamout_token is None && default_layout(parts),
                            }
                    },
                    (ReaderPhase::Playing { name, is_admin }, ReaderEvent::Message(Ok(m))) => {
                        &&& final(self).phase == old(self).phase
                        &&& r@.len() == 1
                        &&& match m {
                            ToServerMsg::SendChatMessage { msg } => chat_handled(r@[0], id, name@, is_admin, msg@),
                            ToServerMsg::RequestUpdate => r@[0] matches ReaderAction::ToSerializer(ToSerializerEvent::RequestUpdate(i)) && i == id,
                            _ => r@[0] matches ReaderAction::ToGame(ToGameEvent::PlayerMessage { id: i, msg }) && i == id && msg == m,
                        }
                    },
                    (ReaderPhase::Playing { name, is_admin }, ReaderEvent::Ping) => final(self).phase == old(self).phase
                        && r@.len() == 1 && (r@[0] matches ReaderAction::ToSerializer(ToSerializerEvent::SendPong(i)) && i == id),
                    (ReaderPhase::Playing { name, is_admin }, ReaderEvent::Beamin(_)) => final(self).phase == old(self).phase && r@.len() == 0,
                    (ReaderPhase::Playing { name, is_admin }, _) => final(self).phase is Closed && ends_playing(r@, id),
                    (_, _) => final(self).phase == old(self).phase && r@.len() == 0,
                }
            }),
    {
        let id = self.id;
        let mut out: Vec<ReaderAction> = Vec::new();
        let mut phase = ReaderPhase::Closed;
        std::mem::swap(&mut phase, &mut self.phase);
        match phase {
            ReaderPhase::AwaitingHandshake => {
                match ev {
                    ReaderEvent::Ping => {
                        self.phase = ReaderPhase::AwaitingHandshake;
                        out.push(ReaderAction::QueuePong);
                    },
                    ReaderEvent::Message(Ok(ToServerMsg::Handshake { client, session, name })) => {
                        let name = player_name(&name);
                        self.phase = ReaderPhase::AwaitingBeamin { name };
                        out.push(ReaderAction::RequestBeamin(session));
                    },
                    _ => {
                        out.push(ReaderAction::Close);
                    },
                }
            },
            ReaderPhase::AwaitingBeamin { name } => {
                match ev {
                    ReaderEvent::Beamin(data) => {
                        let (layout, is_admin, beamout_token) = match data {
                            Some(b) => (b.layout, b.is_admin, Some(b.beamout_token)),
                            None => (None, false, None),
                        };
                        let parts = match layout {
                            Some(l) => l,
                            None => RecursivePartDescription { kind: PartKind::Core, attachments: Vec::new() },
                        };
                        out.push(ReaderAction::ToGame(ToGameEvent::NewPlayer { id, name: name.clone(), parts, beamout_token }));
                        out.push(ReaderAction::StartWriter);
                        self.phase = ReaderPhase::Playing { name, is_admin };
                    },
                    _ => {
                        self.phase = ReaderPhase::AwaitingBeamin { name };
                    },
                }
            },
            ReaderPhase::Playing { name, is_admin } => {
                match ev {
                    ReaderEvent::Message(Ok(m)) => {
                        match m {
                            ToServerMsg::SendChatMessage { msg } => {
                                out.push(chat(id, &name, is_admin, msg));
                            },
                            ToServerMsg::RequestUpdate => {
                                out.push(ReaderAction::ToSerializer(ToSerializerEvent::RequestUpdate(id)));
                            },
                            other => {
                                out.push(ReaderAction::ToGame(ToGameEvent::PlayerMessage { id, msg: other }));
                            },
                        }
                        self.phase = ReaderPhase::Playing { name, is_admin };
                    },
                    ReaderEvent::Ping => {
                        out.push(ReaderAction::ToSerializer(ToSerializerEvent::SendPong(id)));
                        self.phase = ReaderPhase::Playing { name, is_admin };
                    },
                    ReaderEvent::Beamin(_) => {
                        self.phase = ReaderPhase::Playing { name, is_admin };
                    },
                    _ => {
                        out.push(ReaderAction::ToSerializer(ToSerializerEvent::DeleteWriter(id)));
                        out.push(ReaderAction::Close);
                    },
                }
            },
            ReaderPhase::Closed => {},
        }
        out
    }
}

// ---------------------------------------------------------------- laws

/// Once a writer is deleted, no writer of that id is left; the game hears
/// that the player left exactly when there was such a writer, and its
/// last queue ends with a closing frame.
pub proof fn deleted_writer_is_gone(ws: Seq<WriterEntry>, id: u16)
    requires
        increasing(ws),
    ensures
        forall|i: int| 0 <= i < serializer_step(ws, ToSerializerEvent::DeleteWriter(id)).0.len()
            ==> (#[trigger] serializer_step(ws, ToSerializerEvent::DeleteWriter(id)).0[i]).id != id,
        serializer_step(ws, ToSerializerEvent::DeleteWriter(id)).1.contains(quit_action(id))
            <==> exists|i: int| 0 <= i < ws.len() && (#[trigger] ws[i]).id == id,
{
    lemma_lower_count_bounds(ws, id);
    let p = lower_count(ws, id) as int;
    let out = serializer_step(ws, ToSerializerEvent::DeleteWriter(id));
    if has_at(ws, p, id) {
        assert forall|i: int| 0 <= i < out.0.len() implies (#[trigger] out.0[i]).id != id by {
            if i < p {
                assert(out.0[i] == ws[i]);
            } else {
                assert(out.0[i] == ws[i + 1]);
                assert(ws[p].id < ws[i + 1].id);
            }
        }
        assert(out.1[1] == quit_action(id));
    } else {
        assert forall|i: int| 0 <= i < ws.len() implies (#[trigger] ws[i]).id != id by {
            if i >= p {
                if i > p {
                    assert(ws[p].id < ws[i].id);
                }
            }
        }
        assert(out.1 =~= Seq::<ActionModel>::empty());
    }
}

/// The action that tells the game a player left.
pub open spec fn quit_action(id: u16) -> ActionModel {
    ActionModel::PlayerQuit(id)
}

/// After a world update no writer waits for one: each has to ask again.
pub proof fn world_update_clears_requests(
    ws: Seq<WriterEntry>,
    players: Vec<PlayerWorldUpdate>,
    free: Vec<WorldUpdatePartMove>,
)
    ensures
        forall|i: int| 0 <= i < ws.len() ==> !(#[trigger] serializer_step(
            ws,
            ToSerializerEvent::WorldUpdate(players, free),
        ).0[i]).request_update,
{
}

/// A writer that did not ask for the world update gets nothing of it.
pub proof fn world_update_skips_idle_writers(
    ws: Seq<WriterEntry>,
    players: Vec<PlayerWorldUpdate>,
    free: Vec<WorldUpdatePartMove>,
    i: int,
)
    requires
        0 <= i < ws.len(),
        !ws[i].request_update,
    ensures
        serializer_step(ws, ToSerializerEvent::WorldUpdate(players, free)).0[i] == ws[i],
{
}

/// A broadcast adds the same framed message once to every queue, and
/// leaves the writers as they were otherwise.
pub proof fn broadcast_reaches_everyone(ws: Seq<WriterEntry>, m: ToClientMsg, i: int)
    requires
        0 <= i < ws.len(),
    ensures
        serializer_step(ws, ToSerializerEvent::Broadcast(m)).0[i] == (WriterEntry {
            queue: ws[i].queue.push(framed(m)),
            ..ws[i]
        }),
        serializer_step(ws, ToSerializerEvent::Broadcast(m)).1.len() == 0,
{
}

/// A new writer starts with an empty queue and waits for no update, and
/// the writers stay ordered by id, none of them twice.
pub proof fn new_writer_starts_empty(ws: Seq<WriterEntry>, id: u16)
    requires
        increasing(ws),
    ensures
        increasing(with_writer(ws, id)),
        exists|i: int| 0 <= i < with_writer(ws, id).len() && #[trigger] with_writer(ws, id)[i] == fresh(id),
{
    lemma_lower_count_bounds(ws, id);
    let p = lower_count(ws, id) as int;
    let ns = with_writer(ws, id);
    assert(ns[p] == fresh(id));
    assert forall|a: int, b: int| 0 <= a < b < ns.len() implies (#[trigger] ns[a]).id < (#[trigger] ns[b]).id by {
        if has_at(ws, p, id) {
            assert(ns[a].id == ws[a].id && ns[b].id == ws[b].id);
        } else if b < p {
            assert(ns[a] == ws[a] && ns[b] == ws[b]);
        } else if b == p {
            assert(ns[a] == ws[a]);
        } else if a < p {
            assert(ns[a] == ws[a] && ns[b] == ws[b - 1]);
            if b - 1 > p {
                assert(ws[p].id < ws[b - 1].id);
            }
        } else if a == p {
            assert(ns[b] == ws[b - 1]);
            if b - 1 > p {
                assert(ws[p].id < ws[b - 1].id);
            }
        } else {
            assert(ns[a] == ws[a - 1] && ns[b] == ws[b - 1]);
        }
    }
}

/// At the end of a batch every writer, in order of id, is handed what it
/// had queued, and every queue is then empty.
pub proof fn flush_hands_out_everything(ws: Seq<WriterEntry>, i: int)
    requires
        0 <= i < ws.len(),
    ensures
        flush_actions(ws).len() == ws.len(),
        flush_actions(ws)[i] == ActionModel::Send(ws[i].id, ws[i].queue),
        flushed(ws)[i].queue.len() == 0,
        flushed(ws)[i].id == ws[i].id,
{
}

} // verus!
