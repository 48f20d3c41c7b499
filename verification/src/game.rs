//! What the game loop decides around the physics of a tick: what follows
//! when attachments of a ship break, when cargo is due and power comes
//! back, which planets there are, and how players' coming and going is
//! announced.
use vstd::prelude::*;
use crate::world::{World, PartHandle, detach_chain, joined};
use crate::parts::Part;
use crate::player::{PlayerMeta, FreePart, DEFAULT_PART_DECAY_TICKS};
use crate::session::{
    ToSerializerEvent, server_name, cannot_use, warning_color, literal_server_name, literal_cannot_use,
    literal_warning_color,
};
use crate::beamout::{chars_of, push_all};
use crate::codec::{PartKind, ToClientMsg};

verus! {

/// The message that tells clients a part's owner and thrust mode.
pub open spec fn part_meta(p: Part) -> ToClientMsg {
    ToClientMsg::UpdatePartMeta { id: p.id, owning_player: p.part_of_player, thrust_mode: p.thrust_mode.0 }
}

/// For each part of `aff` that is in the world, in order: everyone hears
/// its new owner and thrust mode.
pub open spec fn meta_broadcasts(m: Map<PartHandle, Part>, aff: Seq<PartHandle>) -> Seq<ToSerializerEvent>
    decreases aff.len(),
{
    if aff.len() == 0 {
        seq![]
    } else {
        meta_broadcasts(m, aff.drop_last()) + if m.contains_key(aff.last()) {
            seq![ToSerializerEvent::Broadcast(part_meta(m[aff.last()]))]
        } else {
            seq![]
        }
    }
}

/// For each part of `aff` that is in the world, in order: it floats free
/// and starts to decay.
pub open spec fn decaying_entries(m: Map<PartHandle, Part>, aff: Seq<PartHandle>) -> Seq<(u16, FreePart)>
    decreases aff.len(),
{
    if aff.len() == 0 {
        seq![]
    } else {
        decaying_entries(m, aff.drop_last()) + if m.contains_key(aff.last()) {
            seq![(m[aff.last()].id, FreePart::Decaying(aff.last(), DEFAULT_PART_DECAY_TICKS))]
        } else {
            seq![]
        }
    }
}

/// `q` is player `p` once the parts in `aff` no longer touch a planet:
/// they leave the parts that touch one, and when none is left of the
/// parts that did, the player has left the planet and may not beam out.
pub open spec fn untouched(p: PlayerMeta, q: PlayerMeta, aff: Seq<PartHandle>) -> bool {
    let left = q.parts_touching_planet@.len() == 0 && p.parts_touching_planet@.len() > 0;
    &&& q.parts_touching_planet@.no_duplicates()
    &&& forall|h: PartHandle|
        #[trigger] q.parts_touching_planet@.contains(h) <==> p.parts_touching_planet@.contains(h) && !aff.contains(h)
    &&& q == (PlayerMeta {
        parts_touching_planet: q.parts_touching_planet,
        touching_planet: if left {
            None
        } else {
            p.touching_planet
        },
        can_beamout: if left {
            false
        } else {
            p.can_beamout
        },
        ..p
    })
}

/// What follows once the parts in `aff` were cut loose in world `m`: the
/// free parts to add are `free`; each part in the world is announced;
/// a player (`p` before, `q` after) stops touching a planet with them and
/// hears their own figures last.
pub open spec fn settled(
    m: Map<PartHandle, Part>,
    aff: Seq<PartHandle>,
    p: Option<PlayerMeta>,
    q: Option<PlayerMeta>,
    out0: Seq<ToSerializerEvent>,
    out1: Seq<ToSerializerEvent>,
    free: Seq<(u16, FreePart)>,
) -> bool {
    &&& free == decaying_entries(m, aff)
    &&& match (p, q) {
        (Some(a), Some(b)) => untouched(a, b, aff) && out1 == out0 + meta_broadcasts(m, aff) + seq![
            ToSerializerEvent::Message(b.id, ToClientMsg::UpdateMyMeta { max_power: b.max_power, can_beamout: b.can_beamout }),
        ],
        (None, None) => out1 == out0 + meta_broadcasts(m, aff),
        _ => false,
    }
}

/// A vector without repeats is empty exactly when it holds nothing.
proof fn lemma_empty_iff(s: Seq<PartHandle>)
    ensures
        (s.len() == 0) == (forall|h: PartHandle| !s.contains(h)),
{
    if s.len() > 0 {
        assert(s.contains(s[0]));
    }
}

fn settle_detached(
    world: &World,
    aff: &Vec<PartHandle>,
    player: &mut Option<PlayerMeta>,
    out: &mut Vec<ToSerializerEvent>,
) -> (free: Vec<(u16, FreePart)>)
    requires
        *old(player) matches Some(p) ==> p.parts_touching_planet@.no_duplicates(),
    ensures
        settled(world@, aff@, *old(player), *final(player), old(out)@, final(out)@, free@),
{
    let ghost m = world@;
    let ghost p0 = *player;
    let ghost out0 = out@;
    let mut free: Vec<(u16, FreePart)> = Vec::new();
    let mut k: usize = 0;
    proof {
        assert(aff@.take(0) =~= Seq::<PartHandle>::empty());
        assert(out0 + meta_broadcasts(m, aff@.take(0)) =~= out0);
        assert(free@ =~= decaying_entries(m, aff@.take(0)));
        match p0 {
            Some(a) => {
                assert(untouched(a, a, aff@.take(0)));
            },
            None => {},
        }
    }
    while k < aff.len()
        invariant
            k <= aff@.len(),
            m == world@,
            p0 == *old(player),
            out0 == old(out)@,
            free@ == decaying_entries(m, aff@.take(k as int)),
            out@ == out0 + meta_broadcasts(m, aff@.take(k as int)),
            match (p0, *player) {
                (Some(a), Some(b)) => untouched(a, b, aff@.take(k as int)),
                (None, None) => true,
                _ => false,
            },
        decreases aff@.len() - k,
    {
        let h = aff[k];
        let ghost pre = aff@.take(k as int);
        let ghost post = aff@.take(k + 1);
        proof {
            assert(post.drop_last() =~= pre);
            assert(post.last() == h);
        }
        match world.get_part(h) {
            Some(part) => {
                out.push(ToSerializerEvent::Broadcast(part.update_meta_msg()));
                free.push((part.id, FreePart::Decaying(h, DEFAULT_PART_DECAY_TICKS)));
                proof {
                    assert(out@ =~= out0 + meta_broadcasts(m, post));
                    assert(free@ =~= decaying_entries(m, post));
                }
            },
            None => {
                proof {
                    assert(out@ =~= out0 + meta_broadcasts(m, post));
                    assert(free@ =~= decaying_entries(m, post));
                }
            },
        }
        match player {
            Some(pl) => {
                let ghost q = *pl;
                let left = pl.untouch_part(h);
                proof {
                    let a = p0->Some_0;
                    let q2 = *pl;
                    assert forall|x: PartHandle| #[trigger] q2.parts_touching_planet@.contains(x) <==> a.parts_touching_planet@.contains(x) && !post.contains(x) by {
                        assert(q2.parts_touching_planet@.contains(x) == q2.parts_touching_planet@.to_set().contains(x));
                        assert(q.parts_touching_planet@.contains(x) == q.parts_touching_planet@.to_set().contains(x));
                        if post.contains(x) && !pre.contains(x) {
                            let j = choose|j: int| 0 <= j < post.len() && post[j] == x;
                            if j < k {
                                assert(pre[j] == x);
                            }
                        }
                        if pre.contains(x) {
                            let j = choose|j: int| 0 <= j < pre.len() && pre[j] == x;
                            assert(post[j] == x);
                        }
                        if x == h {
                            assert(post[k as int] == x);
                        }
                    }
                    lemma_empty_iff(q.parts_touching_planet@);
                    lemma_empty_iff(q2.parts_touching_planet@);
                    lemma_empty_iff(a.parts_touching_planet@);
                    let left_q = q.parts_touching_planet@.len() == 0 && a.parts_touching_planet@.len() > 0;
                    let left2 = q2.parts_touching_planet@.len() == 0 && a.parts_touching_planet@.len() > 0;
                    if q.parts_touching_planet@.contains(h) {
                        assert(a.parts_touching_planet@.contains(h));
                        assert(q.parts_touching_planet@.len() != 0);
                        if left {
                            assert(left2);
                        } else {
                            assert(q2.parts_touching_planet@.len() != 0);
                            assert(!left2 && !left_q);
                        }
                    } else {
                        assert forall|x: PartHandle| #[trigger] q2.parts_touching_planet@.contains(x) == q.parts_touching_planet@.contains(x) by {
                            assert(q.parts_touching_planet@.contains(x) == (a.parts_touching_planet@.contains(x) && !pre.contains(x)));
                            if x == h {
                                assert(q.parts_touching_planet@.contains(h) == (a.parts_touching_planet@.contains(h) && !pre.contains(h)));
                            }
                        }
                        if q.parts_touching_planet@.len() == 0 {
                            assert forall|x: PartHandle| !q2.parts_touching_planet@.contains(x) by {
                                assert(!q.parts_touching_planet@.contains(x));
                            }
                        }
                        if q2.parts_touching_planet@.len() == 0 {
                            assert forall|x: PartHandle| !q.parts_touching_planet@.contains(x) by {
                                assert(!q2.parts_touching_planet@.contains(x));
                            }
                        }
                        assert(left2 == left_q);
                    }
                    assert(q2 == (PlayerMeta {
                        parts_touching_planet: q2.parts_touching_planet,
                        touching_planet: if left2 { None } else { a.touching_planet },
                        can_beamout: if left2 { false } else { a.can_beamout },
                        ..a
                    }));
                    assert(untouched(a, q2, post));
                }
            },
            None => {},
        }
        k = k + 1;
    }
    proof {
        assert(aff@.take(aff@.len() as int) =~= aff@);
    }
    match player {
        Some(pl) => {
            let ghost before = out@;
            out.push(ToSerializerEvent::Message(pl.id, pl.update_my_meta()));
            proof {
                assert(out@ =~= before + seq![
                    ToSerializerEvent::Message(pl.id, ToClientMsg::UpdateMyMeta { max_power: pl.max_power, can_beamout: pl.can_beamout }),
                ]);
            }
        },
        None => {},
    }
    free
}

/// Cuts loose the broken attachments named in `broken` (a part and one of
/// its slots), one after the other, as `World::detach_broken` does; then
/// every part cut loose that is in the world is announced and becomes a
/// decaying free part (the entries returned, for the caller's table of
/// free parts, in the order the parts were cut), it stops touching any
/// planet, and a player hears their own figures.
pub fn recursive_broken_detach(
    world: &mut World,
    broken: &Vec<(PartHandle, usize)>,
    player: &mut Option<PlayerMeta>,
    out: &mut Vec<ToSerializerEvent>,
) -> (free: Vec<(u16, FreePart)>)
    requires
        *old(player) matches Some(p) ==> p.parts_touching_planet@.no_duplicates(),
    ensures
        exists|ms: Seq<Map<PartHandle, Part>>, ps: Seq<Option<PlayerMeta>>, affs: Seq<Seq<PartHandle>>|
            #[trigger] detach_chain(ms, ps, affs, broken@) && ms[0] == old(world)@ && ms.last() == final(world)@
                && ps[0] == *old(player) && settled(
                final(world)@,
                joined(affs),
                ps.last(),
                *final(player),
                old(out)@,
                final(out)@,
                free@,
            ),
{
    let mut affected: Vec<PartHandle> = Vec::new();
    let ghost p0 = *player;
    world.detach_broken(broken, player, &mut affected);
    let ghost p1 = *player;
    let ghost (ms, ps, affs) = choose|ms: Seq<Map<PartHandle, Part>>, ps: Seq<Option<PlayerMeta>>, affs: Seq<Seq<PartHandle>>|
        #[trigger] detach_chain(ms, ps, affs, broken@) && ms[0] == old(world)@ && ms.last() == world@
            && ps[0] == p0 && ps.last() == p1 && affected@ == Seq::<PartHandle>::empty() + joined(affs);
    proof {
        assert(affected@ =~= joined(affs));
    }
    let free = settle_detached(world, &affected, player, out);
    proof {
        assert(detach_chain(ms, ps, affs, broken@));
    }
    free
}


/// Ticks between two cargo boxes appearing at the home planet: four
/// seconds.
pub const TICKS_PER_EARTH_CARGO_SPAWN: u8 = 80;

/// The most cargo boxes that wait at the home planet.
pub const MAX_EARTH_CARGOS: u8 = 20;

/// Ticks between two power regenerations.
pub const TICKS_PER_POWER_REGEN: u8 = 5;

/// The game's countdowns that run on ticks, and the number of cargo boxes
/// waiting at the home planet.
pub struct TickClock {
    earth_cargos: u8,
    ticks_til_earth_cargo_spawn: u8,
    ticks_til_power_regen: u8,
}

/// What a tick brings.
#[derive(Copy, Clone, PartialEq, Eq, Structural, Debug)]
pub struct TickPlan {
    /// A cargo box appears at the home planet.
    pub spawn_earth_cargo: bool,
    /// Every player's power regenerates.
    pub regen_power: bool,
}

impl TickClock {
    /// Both countdowns run, and never stand at zero.
    pub closed spec fn wf(&self) -> bool {
        &&& 1 <= self.ticks_til_earth_cargo_spawn <= TICKS_PER_EARTH_CARGO_SPAWN
        &&& 1 <= self.ticks_til_power_regen <= TICKS_PER_POWER_REGEN
    }

    pub closed spec fn cargo_count(&self) -> u8 {
        self.earth_cargos
    }

    pub closed spec fn spawn_countdown(&self) -> u8 {
        self.ticks_til_earth_cargo_spawn
    }

    pub closed spec fn regen_countdown(&self) -> u8 {
        self.ticks_til_power_regen
    }

    /// No box waits yet; both countdowns are full.
    pub fn new() -> (r: TickClock)
        ensures
            r.wf(),
            r.cargo_count() == 0,
            r.spawn_countdown() == TICKS_PER_EARTH_CARGO_SPAWN,
            r.regen_countdown() == TICKS_PER_POWER_REGEN,
    {
        TickClock {
            earth_cargos: 0,
            ticks_til_earth_cargo_spawn: TICKS_PER_EARTH_CARGO_SPAWN,
            ticks_til_power_regen: TICKS_PER_POWER_REGEN,
        }
    }

    /// The number of cargo boxes waiting at the home planet.
    pub fn earth_cargos(&self) -> (r: u8)
        ensures
            r == self.cargo_count(),
    {
        self.earth_cargos
    }

    /// The number of waiting cargo boxes, to change in place (a box that
    /// is grabbed no longer waits).
    pub fn earth_cargos_mut(&mut self) -> (r: &mut u8)
        ensures
            *r == old(self).cargo_count(),
            final(self).cargo_count() == *final(r),
            final(self).spawn_countdown() == old(self).spawn_countdown(),
            final(self).regen_countdown() == old(self).regen_countdown(),
            final(self).wf() == old(self).wf(),
    {
        &mut self.earth_cargos
    }

    /// One tick.  While fewer than `MAX_EARTH_CARGOS` boxes wait, the
    /// spawn countdown runs; when it reaches zero a box appears and the
    /// countdown starts again.  The regeneration countdown runs every
    /// tick; when it reaches zero power regenerates and it starts again.
    pub fn tick(&mut self) -> (r: TickPlan)
        requires
            old(self).wf(),
        ensures
            final(self).wf(),
            r.spawn_earth_cargo == (old(self).cargo_count() < MAX_EARTH_CARGOS && old(self).spawn_countdown() == 1),
            final(self).cargo_count() == if r.spawn_earth_cargo {
                old(self).cargo_count() + 1
            } else {
                old(self).cargo_count() as int
            },
            final(self).spawn_countdown() == if old(self).cargo_count() >= MAX_EARTH_CARGOS {
                old(self).spawn_countdown() as int
            } else if r.spawn_earth_cargo {
                TICKS_PER_EARTH_CARGO_SPAWN as int
            } else {
                old(self).spawn_countdown() - 1
            },
            r.regen_power == (old(self).regen_countdown() == 1),
            final(self).regen_countdown() == if r.regen_power {
                TICKS_PER_POWER_REGEN as int
            } else {
                old(self).regen_countdown() - 1
            },
    {
        let mut spawn = false;
        if self.earth_cargos < MAX_EARTH_CARGOS {
            self.ticks_til_earth_cargo_spawn = self.ticks_til_earth_cargo_spawn - 1;
            if self.ticks_til_earth_cargo_spawn == 0 {
                self.ticks_til_earth_cargo_spawn = TICKS_PER_EARTH_CARGO_SPAWN;
                self.earth_cargos = self.earth_cargos + 1;
                spawn = true;
            }
        }
        self.ticks_til_power_regen = self.ticks_til_power_regen - 1;
        let regen = if self.ticks_til_power_regen == 0 {
            self.ticks_til_power_regen = TICKS_PER_POWER_REGEN;
            true
        } else {
            false
        };
        TickPlan { spawn_earth_cargo: spawn, regen_power: regen }
    }
}


// ---------------------------------------------------------------- the planets

/// The id of the sun: a part that touches it burns.
pub const SUN_ID: u8 = 1;

/// The id of the home planet, where players and cargo boxes appear.
pub const EARTH_ID: u8 = 2;

/// The id of the trading planet, which shares the home planet's path half a
/// year apart from it.
pub const TRADE_ID: u8 = 12;

/// What the game knows of a planet apart from its size, mass and the shape
/// of its path: its id, what it circles and in how many ticks, whether a
/// ship resting on it may beam out, and what cargo turns into there.
#[derive(Copy, Clone, Debug)]
pub struct PlanetInfo {
    pub id: u8,
    pub orbit_around: Option<u8>,
    pub orbit_ticks: u32,
    pub can_beamout: bool,
    pub cargo_upgrade: Option<PartKind>,
}

/// A row of the planet table.
pub open spec fn planet(id: u8, orbit_around: Option<u8>, orbit_ticks: u32, can_beamout: bool, cargo_upgrade: Option<PartKind>) -> PlanetInfo {
    PlanetInfo { id, orbit_around, orbit_ticks, can_beamout, cargo_upgrade }
}

/// The planets, in the order their ids are given: the sun, which circles
/// nothing; the home planet and the trading planet, which share one year
/// and allow beaming out; the moon, which circles the home planet, allows
/// beaming out and turns cargo into landing thrusters; Mars (hubs) and
/// Mercury (solar panels); and the other planets, which upgrade nothing.
pub open spec fn planet_table_spec() -> Seq<PlanetInfo> {
    seq![
        planet(SUN_ID, None, 0, false, None),
        planet(EARTH_ID, Some(SUN_ID), 216_000u32, true, None),
        planet(3, Some(EARTH_ID), 36_000u32, true, Some(PartKind::LandingThruster)),
        planet(4, Some(SUN_ID), 288_000u32, false, Some(PartKind::Hub)),
        planet(5, Some(SUN_ID), 72_000u32, false, Some(PartKind::SolarPanel)),
        planet(6, Some(SUN_ID), 504_000u32, false, None),
        planet(7, Some(SUN_ID), 203_640u32, false, None),
        planet(8, Some(SUN_ID), 576_000u32, false, None),
        planet(9, Some(SUN_ID), 792_000u32, false, None),
        planet(10, Some(SUN_ID), 144_000u32, false, None),
        planet(11, Some(SUN_ID), 691_200u32, false, None),
        planet(TRADE_ID, Some(SUN_ID), 216_000u32, true, None),
    ]
}

/// The planets of the world (see `planet_table_spec`).
pub fn planet_table() -> (r: Vec<PlanetInfo>)
    ensures
        r@ == planet_table_spec(),
{
    let r = vec![
        PlanetInfo { id: SUN_ID, orbit_around: None, orbit_ticks: 0, can_beamout: false, cargo_upgrade: None },
        PlanetInfo { id: EARTH_ID, orbit_around: Some(SUN_ID), orbit_ticks: 216_000u32, can_beamout: true, cargo_upgrade: None },
        PlanetInfo { id: 3, orbit_around: Some(EARTH_ID), orbit_ticks: 36_000u32, can_beamout: true, cargo_upgrade: Some(PartKind::LandingThruster) },
        PlanetInfo { id: 4, orbit_around: Some(SUN_ID), orbit_ticks: 288_000u32, can_beamout: false, cargo_upgrade: Some(PartKind::Hub) },
        PlanetInfo { id: 5, orbit_around: Some(SUN_ID), orbit_ticks: 72_000u32, can_beamout: false, cargo_upgrade: Some(PartKind::SolarPanel) },
        PlanetInfo { id: 6, orbit_around: Some(SUN_ID), orbit_ticks: 504_000u32, can_beamout: false, cargo_upgrade: None },
        PlanetInfo { id: 7, orbit_around: Some(SUN_ID), orbit_ticks: 203_640u32, can_beamout: false, cargo_upgrade: None },
        PlanetInfo { id: 8, orbit_around: Some(SUN_ID), orbit_ticks: 576_000u32, can_beamout: false, cargo_upgrade: None },
        PlanetInfo { id: 9, orbit_around: Some(SUN_ID), orbit_ticks: 792_000u32, can_beamout: false, cargo_upgrade: None },
        PlanetInfo { id: 10, orbit_around: Some(SUN_ID), orbit_ticks: 144_000u32, can_beamout: false, cargo_upgrade: None },
        PlanetInfo { id: 11, orbit_around: Some(SUN_ID), orbit_ticks: 691_200u32, can_beamout: false, cargo_upgrade: None },
        PlanetInfo { id: TRADE_ID, orbit_around: Some(SUN_ID), orbit_ticks: 216_000u32, can_beamout: true, cargo_upgrade: None },
    ];
    proof {
        assert(r@ =~= planet_table_spec());
    }
    r
}

/// The planet with id `id`, if there is one.
pub fn planet_info(id: u8) -> (r: Option<PlanetInfo>)
    ensures
        r == (if 1 <= id <= planet_table_spec().len() {
            Some(planet_table_spec()[id - 1])
        } else {
            None
        }),
{
    let table = planet_table();
    if 1 <= id && (id as usize) <= table.len() {
        Some(table[(id - 1) as usize])
    } else {
        None
    }
}

/// Every planet but the sun circles a planet listed before it, the ids
/// are one to twelve in order (so no id comes twice), and the sun circles
/// nothing.
pub proof fn planets_circle_earlier_planets()
    ensures
        forall|i: int|
            0 <= i < planet_table_spec().len() ==> (#[trigger] planet_table_spec()[i]).id == i + 1,
        forall|i: int|
            1 <= i < planet_table_spec().len() ==> match (#[trigger] planet_table_spec()[i]).orbit_around {
                Some(a) => 1 <= a <= i,
                None => false,
            },
        planet_table_spec()[0].orbit_around is None,
{
}

// ---------------------------------------------------------------- notices

/// The color of the server's notices of players coming and going.
pub open spec fn notice_color() -> Seq<char> {
    seq!['#', 'e', '2', '7', '0', 'f', 'f']
}

/// `m` is a chat line to be sent from the server, saying `text` in the
/// notice color.
pub open spec fn is_notice(m: ToClientMsg, text: Seq<char>) -> bool {
    m matches ToClientMsg::ChatMessage { username, msg, color } && username@ == server_name()
        && msg@ == text && color@ == notice_color()
}

fn literal_notice_color() -> (r: String)
    ensures
        r@ == notice_color(),
{
    let r = "#e270ff".to_owned();
    proof {
        reveal_strlit("#e270ff");
        assert(r@ =~= notice_color());
    }
    r
}

/// The server's chat line that says `name` followed by `tail`.
fn notice(name: &String, tail: &str) -> (r: ToClientMsg)
    ensures
        is_notice(r, name@ + tail@),
{
    let mut msg = name.clone();
    let chars = chars_of(tail);
    push_all(&mut msg, &chars, 0, chars.len());
    proof {
        assert(chars@.subrange(0, chars@.len() as int) =~= tail@);
    }
    ToClientMsg::ChatMessage { username: literal_server_name(), msg, color: literal_notice_color() }
}

/// What everyone is told when the player `name` joins.
pub fn joined_notice(name: &String) -> (r: ToClientMsg)
    ensures
        is_notice(r, name@ + " joined the game"@),
{
    notice(name, " joined the game")
}

/// What everyone is told when the player `name` quits.
pub fn left_notice(name: &String) -> (r: ToClientMsg)
    ensures
        is_notice(r, name@ + " left the game"@),
{
    notice(name, " left the game")
}

/// What everyone is told when the player `name` beams out.
pub fn beamed_out_notice(name: &String) -> (r: ToClientMsg)
    ensures
        is_notice(r, name@ + " has left the game"@),
{
    notice(name, " has left the game")
}

/// What a player is told when the game does not know the command they
/// gave.
pub fn unknown_command_notice() -> (r: ToClientMsg)
    ensures
        r matches ToClientMsg::ChatMessage { username, msg, color } && username@ == server_name()
            && msg@ == cannot_use() && color@ == warning_color(),
{
    ToClientMsg::ChatMessage {
        username: literal_server_name(),
        msg: literal_cannot_use(),
        color: literal_warning_color(),
    }
}

} // verus!
