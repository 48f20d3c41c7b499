//! Players, their power budget, and the parts floating free in the world.
use vstd::prelude::*;
use crate::codec::ToClientMsg;
use crate::world::PartHandle;

verus! {

/// Simulation ticks per second.
pub const TICKS_PER_SECOND: u8 = 20;

/// Ticks a detached part floats before it is removed: twenty seconds.
pub const DEFAULT_PART_DECAY_TICKS: u16 = 400;

/// Ticks before a cargo box at the home planet is put back next to it:
/// sixty seconds.
pub const EARTH_CARGO_RESPAWN_TICKS: u16 = 1200;

/// A connected player and the state of their ship.
pub struct PlayerMeta {
    pub id: u16,
    pub name: String,
    pub beamout_token: Option<String>,
    pub core: PartHandle,
    pub thrust_forwards: bool,
    pub thrust_backwards: bool,
    pub thrust_clockwise: bool,
    pub thrust_counterclockwise: bool,
    pub power: u32,
    pub max_power: u32,
    pub power_regen_per_5_ticks: u32,
    /// The part being dragged: its id, the raw handle of the drag
    /// constraint, and the grab point relative to the core (the bit
    /// patterns of two `f32`).
    pub grabbed_part: Option<(u16, u64, u32, u32)>,
    pub touching_planet: Option<u16>,
    pub ticks_til_cargo_transform: u8,
    /// The ship's parts that touch a planet; no handle occurs twice.
    pub parts_touching_planet: Vec<PartHandle>,
    pub can_beamout: bool,
}

/// The part ids of an optional grab.
pub open spec fn grabbed_id(g: Option<(u16, u64, u32, u32)>) -> Option<u16> {
    match g {
        Some(t) => Some(t.0),
        None => None,
    }
}

impl PlayerMeta {
    /// A player who has just joined: no thrust, no power, nothing grabbed,
    /// touching nothing.
    pub fn new(my_id: u16, core_handle: PartHandle, name: String, beamout_token: Option<String>) -> (r:
        PlayerMeta)
        ensures
            r.id == my_id,
            r.core == core_handle,
            r.name@ == name@,
            r.beamout_token == beamout_token,
            !r.thrust_forwards && !r.thrust_backwards && !r.thrust_clockwise
                && !r.thrust_counterclockwise,
            r.power == 0 && r.max_power == 0 && r.power_regen_per_5_ticks == 0,
            r.grabbed_part is None,
            r.touching_planet is None,
            r.parts_touching_planet@ == Seq::<PartHandle>::empty(),
            r.ticks_til_cargo_transform == TICKS_PER_SECOND,
            !r.can_beamout,
    {
        PlayerMeta {
            id: my_id,
            core: core_handle,
            name,
            beamout_token,
            thrust_backwards: false,
            thrust_clockwise: false,
            thrust_counterclockwise: false,
            thrust_forwards: false,
            power: 0,
            max_power: 0,
            power_regen_per_5_ticks: 0,
            grabbed_part: None,
            touching_planet: None,
            parts_touching_planet: Vec::new(),
            ticks_til_cargo_transform: TICKS_PER_SECOND,
            can_beamout: false,
        }
    }

    /// The message that tells everyone this player's thrust and grab.
    pub fn update_meta_msg(&self) -> (r: ToClientMsg)
        ensures
            r == (ToClientMsg::UpdatePlayerMeta {
                id: self.id,
                thrust_forward: self.thrust_forwards,
                thrust_backward: self.thrust_backwards,
                thrust_clockwise: self.thrust_clockwise,
                thrust_counter_clockwise: self.thrust_counterclockwise,
                grabed_part: grabbed_id(self.grabbed_part),
            }),
    {
        ToClientMsg::UpdatePlayerMeta {
            id: self.id,
            grabed_part: match &self.grabbed_part {
                Some(g) => Some(g.0),
                None => None,
            },
            thrust_forward: self.thrust_forwards,
            thrust_backward: self.thrust_backwards,
            thrust_clockwise: self.thrust_clockwise,
            thrust_counter_clockwise: self.thrust_counterclockwise,
        }
    }

    /// The message that tells this player their power limit and whether
    /// they may beam out.
    pub fn update_my_meta(&self) -> (r: ToClientMsg)
        ensures
            r == (ToClientMsg::UpdateMyMeta {
                max_power: self.max_power,
                can_beamout: self.can_beamout,
            }),
    {
        ToClientMsg::UpdateMyMeta { max_power: self.max_power, can_beamout: self.can_beamout }
    }

    /// Every fifth tick a player's power grows by their regeneration, up to
    /// their maximum.
    pub fn regenerate_power(&mut self)
        requires
            old(self).power + old(self).power_regen_per_5_ticks <= u32::MAX,
        ensures
            final(self).power == if old(self).power + old(self).power_regen_per_5_ticks
                > old(self).max_power {
                old(self).max_power as int
            } else {
                old(self).power + old(self).power_regen_per_5_ticks
            },
            *final(self) == (PlayerMeta { power: final(self).power, ..*old(self) }),
    {
        self.power = self.power + self.power_regen_per_5_ticks;
        if self.power > self.max_power {
            self.power = self.max_power;
        }
    }

    /// One of the ship's parts touches a planet that is not the sun: the
    /// player lands there, may beam out if the planet allows it, has a full
    /// second before cargo is transformed, and is recharged.
    pub fn touch_planet(&mut self, planet: u16, planet_can_beamout: bool, part: PartHandle)
        requires
            old(self).parts_touching_planet@.no_duplicates(),
        ensures
            final(self).touching_planet == Some(planet),
            final(self).can_beamout == planet_can_beamout,
            final(self).ticks_til_cargo_transform == TICKS_PER_SECOND,
            final(self).power == old(self).max_power,
            final(self).max_power == old(self).max_power,
            final(self).parts_touching_planet@.no_duplicates(),
            final(self).parts_touching_planet@.to_set() == old(
                self,
            ).parts_touching_planet@.to_set().insert(part),
            *final(self) == (PlayerMeta {
                parts_touching_planet: final(self).parts_touching_planet,
                touching_planet: Some(planet),
                can_beamout: planet_can_beamout,
                ticks_til_cargo_transform: TICKS_PER_SECOND,
                power: old(self).max_power,
                ..*old(self)
            }),
    {
        self.touching_planet = Some(planet);
        self.can_beamout = planet_can_beamout;
        self.ticks_til_cargo_transform = TICKS_PER_SECOND;
        let mut present = false;
        let mut i: usize = 0;
        while i < self.parts_touching_planet.len()
            invariant
                i <= self.parts_touching_planet@.len(),
                present <==> self.parts_touching_planet@.subrange(0, i as int).contains(part),
            decreases self.parts_touching_planet@.len() - i,
        {
            if self.parts_touching_planet[i] == part {
                present = true;
            }
            proof {
                let s = self.parts_touching_planet@;
                assert(s.subrange(0, i + 1) =~= s.subrange(0, i as int).push(s[i as int]));
                if s[i as int] == part {
                    assert(s.subrange(0, i + 1)[i as int] == part);
                } else if s.subrange(0, i + 1).contains(part) {
                    let k = choose|k: int| 0 <= k < i + 1 && #[trigger] s.subrange(0, i + 1)[k] == part;
                    assert(s.subrange(0, i as int)[k] == part);
                }
                if s.subrange(0, i as int).contains(part) {
                    let k = choose|k: int| 0 <= k < i && #[trigger] s.subrange(0, i as int)[k] == part;
                    assert(s.subrange(0, i + 1)[k] == part);
                }
            }
            i = i + 1;
        }
        proof {
            assert(self.parts_touching_planet@.subrange(0, i as int) =~= self.parts_touching_planet@);
        }
        if !present {
            let ghost before = self.parts_touching_planet@;
            self.parts_touching_planet.push(part);
            proof {
                assert(self.parts_touching_planet@.to_set() =~= before.to_set().insert(part)) by {
                    assert forall|h: PartHandle| #[trigger] self.parts_touching_planet@.to_set().contains(h) <==> before.to_set().insert(part).contains(h) by {
                        if h != part && self.parts_touching_planet@.contains(h) {
                            let k = choose|k: int| 0 <= k < self.parts_touching_planet@.len() && self.parts_touching_planet@[k] == h;
                            assert(before[k] == h);
                        }
                        if before.contains(h) {
                            let k = choose|k: int| 0 <= k < before.len() && before[k] == h;
                            assert(self.parts_touching_planet@[k] == h);
                        }
                        if h == part {
                            assert(self.parts_touching_planet@[before.len() as int] == part);
                        }
                    }
                }
            }
        } else {
            proof {
                assert(self.parts_touching_planet@.to_set() =~= self.parts_touching_planet@.to_set().insert(part));
            }
        }
        self.power = self.max_power;
    }

    /// A part stops touching the planet.  When it was the last one, the
    /// player has left the planet and may no longer beam out; the result
    /// says whether that happened.
    pub fn untouch_part(&mut self, part: PartHandle) -> (left_planet: bool)
        requires
            old(self).parts_touching_planet@.no_duplicates(),
        ensures
            final(self).parts_touching_planet@.no_duplicates(),
            final(self).parts_touching_planet@.to_set() == old(
                self,
            ).parts_touching_planet@.to_set().remove(part),
            left_planet == (old(self).parts_touching_planet@.contains(part)
                && final(self).parts_touching_planet@.len() == 0),
            left_planet ==> final(self).touching_planet is None && !final(self).can_beamout,
            !left_planet ==> final(self).touching_planet == old(self).touching_planet
                && final(self).can_beamout == old(self).can_beamout,
            *final(self) == (PlayerMeta {
                parts_touching_planet: final(self).parts_touching_planet,
                touching_planet: final(self).touching_planet,
                can_beamout: final(self).can_beamout,
                ..*old(self)
            }),
    {
        let mut i: usize = 0;
        while i < self.parts_touching_planet.len() && self.parts_touching_planet[i] != part
            invariant
                i <= self.parts_touching_planet@.len(),
                !self.parts_touching_planet@.subrange(0, i as int).contains(part),
            decreases self.parts_touching_planet@.len() - i,
        {
            proof {
                let s = self.parts_touching_planet@;
                assert(s.subrange(0, i + 1) =~= s.subrange(0, i as int).push(s[i as int]));
                if s.subrange(0, i + 1).contains(part) {
                    let k = choose|k: int| 0 <= k < i + 1 && #[trigger] s.subrange(0, i + 1)[k] == part;
                    assert(s.subrange(0, i as int)[k] == part);
                }
            }
            i = i + 1;
        }
        if i < self.parts_touching_planet.len() {
            let ghost before = self.parts_touching_planet@;
            self.parts_touching_planet.remove(i);
            proof {
                assert(self.parts_touching_planet@ =~= before.remove(i as int));
                assert(before[i as int] == part);
                assert(before.contains(part));
                assert forall|h: PartHandle| #[trigger] self.parts_touching_planet@.to_set().contains(h) <==> before.to_set().remove(part).contains(h) by {
                    if self.parts_touching_planet@.contains(h) {
                        let k = choose|k: int| 0 <= k < self.parts_touching_planet@.len() && self.parts_touching_planet@[k] == h;
                        if k < i {
                            assert(before[k] == h);
                        } else {
                            assert(before[k + 1] == h);
                        }
                    }
                    if before.contains(h) && h != part {
                        let k = choose|k: int| 0 <= k < before.len() && before[k] == h;
                        if k < i {
                            assert(self.parts_touching_planet@[k] == h);
                        } else {
                            assert(k != i);
                            assert(self.parts_touching_planet@[k - 1] == h);
                        }
                    }
                }
                assert(self.parts_touching_planet@.to_set() =~= before.to_set().remove(part));
            }
            if self.parts_touching_planet.len() == 0 {
                self.touching_planet = None;
                self.can_beamout = false;
                return true;
            }
            false
        } else {
            proof {
                assert(self.parts_touching_planet@.subrange(0, i as int) =~= self.parts_touching_planet@);
                assert(self.parts_touching_planet@.to_set() =~= self.parts_touching_planet@.to_set().remove(part));
            }
            false
        }
    }
}

/// A part that belongs to no ship: floating until it decays, a cargo box
/// orbiting the home planet, or being dragged by a player.
pub enum FreePart {
    Decaying(PartHandle, u16),
    EarthCargo(PartHandle, u16),
    Grabbed(PartHandle),
    PlaceholderLol,
}

/// What a tick does to a free part.
#[derive(Copy, Clone, PartialEq, Eq, Structural, Debug)]
pub enum FreePartTick {
    Keep,
    /// Its time ran out: remove it from the world.
    Delete,
    /// A cargo box's time ran out: put it back next to the home planet.
    Respawn,
}

impl FreePart {
    /// Only a part that floats on its own (decaying) or a cargo box around
    /// the home planet can be grabbed: a part another player drags cannot.
    pub fn can_be_grabbed(&self) -> (r: bool)
        ensures
            r == (*self is Decaying || *self is EarthCargo),
    {
        match self {
            FreePart::Decaying(_, _) | FreePart::EarthCargo(_, _) => true,
            _ => false,
        }
    }

    /// Only a dragged part, or one already decaying, can be let go.
    pub fn can_be_let_go(&self) -> (r: bool)
        ensures
            r == (*self is Decaying || *self is Grabbed),
    {
        match self {
            FreePart::Decaying(_, _) | FreePart::Grabbed(_) => true,
            _ => false,
        }
    }

    /// A player grabs the part; a home-planet cargo box no longer counts
    /// among the home planet's boxes.
    pub fn become_grabbed(&mut self, earth_cargo_count: &mut u8)
        requires
            *old(self) is Decaying || *old(self) is EarthCargo,
            *old(self) is EarthCargo ==> *old(earth_cargo_count) > 0,
        ensures
            *final(self) == FreePart::Grabbed(old(self).spec_handle()),
            *final(earth_cargo_count) == if *old(self) is EarthCargo {
                *old(earth_cargo_count) - 1
            } else {
                *old(earth_cargo_count) as int
            },
    {
        if let FreePart::EarthCargo(_, _) = self {
            *earth_cargo_count = *earth_cargo_count - 1;
        }
        let part = self.deref();
        *self = FreePart::Grabbed(part);
    }

    /// The part is let go (or its player left) and starts to decay.
    pub fn become_decaying(&mut self)
        requires
            *old(self) is Decaying || *old(self) is Grabbed,
        ensures
            *final(self) == FreePart::Decaying(old(self).spec_handle(), DEFAULT_PART_DECAY_TICKS),
    {
        let part = self.deref();
        *self = FreePart::Decaying(part, DEFAULT_PART_DECAY_TICKS);
    }

    pub open spec fn spec_handle(&self) -> PartHandle {
        match self {
            FreePart::Decaying(h, _) => *h,
            FreePart::EarthCargo(h, _) => *h,
            FreePart::Grabbed(h) => *h,
            FreePart::PlaceholderLol => PartHandle { index: 0, generation: 0 },
        }
    }

    /// The body of the part.
    pub fn deref(&self) -> (r: PartHandle)
        requires
            !(self is PlaceholderLol),
        ensures
            r == self.spec_handle(),
    {
        match self {
            FreePart::Decaying(handle, _) | FreePart::EarthCargo(handle, _) | FreePart::Grabbed(
                handle,
            ) => *handle,
            FreePart::PlaceholderLol => PartHandle { index: 0, generation: 0 },
        }
    }

    /// One tick for a free part: a decaying part or a cargo box counts
    /// down; when its count falls below one the part is deleted, or the
    /// box is put back with a fresh minute.  A grabbed part is left alone.
    pub fn tick(&mut self) -> (r: FreePartTick)
        requires
            !(*old(self) is PlaceholderLol),
            *old(self) matches FreePart::Decaying(_, t) ==> t > 0,
            *old(self) matches FreePart::EarthCargo(_, t) ==> t > 0,
        ensures
            match *old(self) {
                FreePart::Decaying(h, t) => *final(self) == FreePart::Decaying(h, (t - 1) as u16)
                    && r == (if t - 1 < 1 {
                    FreePartTick::Delete
                } else {
                    FreePartTick::Keep
                }),
                FreePart::EarthCargo(h, t) => if t - 1 < 1 {
                    *final(self) == FreePart::EarthCargo(h, EARTH_CARGO_RESPAWN_TICKS) && r
                        == FreePartTick::Respawn
                } else {
                    *final(self) == FreePart::EarthCargo(h, (t - 1) as u16) && r
                        == FreePartTick::Keep
                },
                _ => *final(self) == *old(self) && r == FreePartTick::Keep,
            },
    {
        match self {
            FreePart::Decaying(_part, ticks) => {
                *ticks = *ticks - 1;
                if *ticks < 1 {
                    FreePartTick::Delete
                } else {
                    FreePartTick::Keep
                }
            },
            FreePart::EarthCargo(_part, ticks) => {
                *ticks = *ticks - 1;
                if *ticks < 1 {
                    *ticks = EARTH_CARGO_RESPAWN_TICKS;
                    FreePartTick::Respawn
                } else {
                    FreePartTick::Keep
                }
            },
            _ => FreePartTick::Keep,
        }
    }
}



impl PlayerMeta {
    /// After thrusting, a player whose power ran out stops every thruster,
    /// and everyone is told; a player with power left is unchanged.
    pub fn stop_when_drained(&mut self) -> (r: Option<ToClientMsg>)
        ensures
            old(self).power < 1 ==> *final(self) == (PlayerMeta {
                thrust_forwards: false,
                thrust_backwards: false,
                thrust_clockwise: false,
                thrust_counterclockwise: false,
                ..*old(self)
            }) && r == Some(
                ToClientMsg::UpdatePlayerMeta {
                    id: old(self).id,
                    thrust_forward: false,
                    thrust_backward: false,
                    thrust_clockwise: false,
                    thrust_counter_clockwise: false,
                    grabed_part: grabbed_id(old(self).grabbed_part),
                },
            ),
            old(self).power >= 1 ==> *final(self) == *old(self) && r is None,
    {
        if self.power < 1 {
            self.thrust_backwards = false;
            self.thrust_forwards = false;
            self.thrust_clockwise = false;
            self.thrust_counterclockwise = false;
            Some(self.update_meta_msg())
        } else {
            None
        }
    }

    /// One tick on a planet: the countdown to the next cargo
    /// transformation runs down; when it falls below one it starts again
    /// from a second and the result says that cargo is transformed now.
    pub fn cargo_transform_due(&mut self) -> (r: bool)
        requires
            old(self).ticks_til_cargo_transform >= 1,
        ensures
            r == (old(self).ticks_til_cargo_transform - 1 < 1),
            *final(self) == (PlayerMeta {
                ticks_til_cargo_transform: if r {
                    TICKS_PER_SECOND
                } else {
                    (old(self).ticks_til_cargo_transform - 1) as u8
                },
                ..*old(self)
            }),
    {
        self.ticks_til_cargo_transform = self.ticks_til_cargo_transform - 1;
        if self.ticks_til_cargo_transform < 1 {
            self.ticks_til_cargo_transform = TICKS_PER_SECOND;
            true
        } else {
            false
        }
    }
}


impl PlayerMeta {
    /// A player with power sets their thrusters as asked, and everyone is
    /// told; a player without power is unchanged.
    pub fn set_thrusters(&mut self, forward: bool, backward: bool, clockwise: bool, counter_clockwise: bool) -> (r:
        Option<ToClientMsg>)
        ensures
            old(self).power > 0 ==> *final(self) == (PlayerMeta {
                thrust_forwards: forward,
                thrust_backwards: backward,
                thrust_clockwise: clockwise,
                thrust_counterclockwise: counter_clockwise,
                ..*old(self)
            }) && r == Some(
                ToClientMsg::UpdatePlayerMeta {
                    id: old(self).id,
                    thrust_forward: forward,
                    thrust_backward: backward,
                    thrust_clockwise: clockwise,
                    thrust_counter_clockwise: counter_clockwise,
                    grabed_part: grabbed_id(old(self).grabbed_part),
                },
            ),
            old(self).power == 0 ==> *final(self) == *old(self) && r is None,
    {
        if self.power > 0 {
            self.thrust_forwards = forward;
            self.thrust_backwards = backward;
            self.thrust_clockwise = clockwise;
            self.thrust_counterclockwise = counter_clockwise;
            Some(self.update_meta_msg())
        } else {
            None
        }
    }
}


impl PlayerMeta {
    /// The mouse of a player who drags a part moved to `(x, y)` from the
    /// core: the grab point follows it.  A player who drags nothing is
    /// unchanged.
    pub fn move_grab(&mut self, x: u32, y: u32)
        ensures
            *final(self) == (match old(self).grabbed_part {
                Some((part_id, constraint, _, _)) => PlayerMeta {
                    grabbed_part: Some((part_id, constraint, x, y)),
                    ..*old(self)
                },
                None => *old(self),
            }),
    {
        if let Some((part_id, constraint, _, _)) = self.grabbed_part {
            self.grabbed_part = Some((part_id, constraint, x, y));
        }
    }
}


impl PlayerMeta {
    /// Whether no part is listed twice among those touching a planet.
    pub fn touching_parts_distinct(&self) -> (r: bool)
        ensures
            r == self.parts_touching_planet@.no_duplicates(),
    {
        let v = &self.parts_touching_planet;
        let mut i: usize = 0;
        while i < v.len()
            invariant
                i <= v@.len(),
                v@ == self.parts_touching_planet@,
                forall|x: int, y: int| 0 <= x < y < v@.len() && x < i ==> v@[x] != v@[y],
            decreases v@.len() - i,
        {
            let mut j: usize = i + 1;
            while j < v.len()
                invariant
                    i < v@.len(),
                    i + 1 <= j <= v@.len(),
                    v@ == self.parts_touching_planet@,
                    forall|x: int, y: int| 0 <= x < y < v@.len() && x < i ==> v@[x] != v@[y],
                    forall|y: int| i < y < j ==> v@[i as int] != v@[y],
                decreases v@.len() - j,
            {
                if v[i] == v[j] {
                    proof {
                        assert(v@[i as int] == v@[j as int]);
                    }
                    return false;
                }
                j = j + 1;
            }
            i = i + 1;
        }
        true
    }
}

} // verus!
