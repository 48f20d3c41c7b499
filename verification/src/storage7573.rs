//! A tag stored in a 128-bit user-data slot: byte 0 says what kind of
//! object the slot belongs to, the bytes after it hold the object's id.
use vstd::prelude::*;

verus! {

/// A 128-bit word read as bytes, least significant byte first.
pub struct Storage128(pub u128);

impl Storage128 {
    pub open spec fn spec_id(self) -> u8 {
        (self.0 % 256) as u8
    }

    pub open spec fn spec_storage_u8(self) -> u8 {
        ((self.0 / 256) % 256) as u8
    }

    pub open spec fn spec_storage_u16(self) -> u16 {
        ((self.0 / 256) % 0x1_0000) as u16
    }

    pub fn from(v: u128) -> (r: Self)
        ensures
            r.0 == v,
    {
        Storage128(v)
    }

    pub fn into(self) -> (r: u128)
        ensures
            r == self.0,
    {
        self.0
    }

    /// Byte 0.
    pub fn id_u8(&self) -> (r: u8)
        ensures
            r == self.spec_id(),
    {
        (self.0 % 256) as u8
    }

    /// Sets byte 0 and keeps the others.
    pub fn id_u8_mut(&mut self, value: u8)
        ensures
            final(self).0 == old(self).0 - old(self).spec_id() + value,
    {
        self.0 = self.0 - self.0 % 256 + value as u128;
    }

    /// Byte 1.
    pub fn storage_u8(&self) -> (r: u8)
        ensures
            r == self.spec_storage_u8(),
    {
        ((self.0 / 256) % 256) as u8
    }

    /// Sets byte 1 and keeps the others.
    pub fn storage_u8_mut(&mut self, value: u8)
        ensures
            final(self).0 == old(self).0 - old(self).spec_storage_u8() * 256 + value * 256,
    {
        self.0 = self.0 - ((self.0 / 256) % 256) * 256 + value as u128 * 256;
    }

    /// Bytes 1 and 2, little-endian.
    pub fn storage_u16(&self) -> (r: u16)
        ensures
            r == self.spec_storage_u16(),
    {
        ((self.0 / 256) % 0x1_0000) as u16
    }

    /// Sets bytes 1 and 2 (little-endian) and keeps the others.
    pub fn storage_u16_mut(&mut self, value: u16)
        ensures
            final(self).0 == old(self).0 - old(self).spec_storage_u16() * 256 + value * 256,
    {
        self.0 = self.0 - ((self.0 / 256) % 0x1_0000) * 256 + value as u128 * 256;
    }
}

/// What a physics body belongs to, as stored in its user data.
#[derive(Debug, PartialEq, Eq, Structural)]
pub enum Storage7573 {
    Planet(u8),
    PartOfPlayer(u16),
    Invalid,
}

pub const ID_PLANET: u8 = 1;

pub const ID_PART_OF_PLAYER: u8 = 2;

impl Storage7573 {
    /// The tag a word holds.
    pub open spec fn decode(v: u128) -> Storage7573 {
        let s = Storage128(v);
        if s.spec_id() == ID_PLANET {
            Storage7573::Planet(s.spec_storage_u8())
        } else if s.spec_id() == ID_PART_OF_PLAYER {
            Storage7573::PartOfPlayer(s.spec_storage_u16())
        } else {
            Storage7573::Invalid
        }
    }

    /// The word a tag is stored as: the kind in byte 0, the id after it,
    /// every other byte zero.
    pub open spec fn encode(self) -> u128 {
        match self {
            Storage7573::Planet(id) => (ID_PLANET + id * 256) as u128,
            Storage7573::PartOfPlayer(id) => (ID_PART_OF_PLAYER + id * 256) as u128,
            Storage7573::Invalid => 0,
        }
    }

    pub fn from(v: u128) -> (r: Self)
        ensures
            r == Storage7573::decode(v),
    {
        let storage = Storage128::from(v);
        let id = storage.id_u8();
        if id == ID_PLANET {
            Self::Planet(storage.storage_u8())
        } else if id == ID_PART_OF_PLAYER {
            Self::PartOfPlayer(storage.storage_u16())
        } else {
            Self::Invalid
        }
    }

    /// The word for a tag; `Invalid` has none.
    pub fn into(self) -> (r: u128)
        requires
            self != Storage7573::Invalid,
        ensures
            r == self.encode(),
    {
        let mut storage = Storage128::from(0u128);
        match self {
            Self::Planet(planet_id) => {
                storage.id_u8_mut(ID_PLANET);
                storage.storage_u8_mut(planet_id);
            },
            Self::PartOfPlayer(player_id) => {
                storage.id_u8_mut(ID_PART_OF_PLAYER);
                storage.storage_u16_mut(player_id);
            },
            Self::Invalid => {},
        }
        storage.into()
    }

    /// The planet's id; only a planet tag has one.
    pub fn planet_id(&self) -> (r: u8)
        requires
            self is Planet,
        ensures
            r == self->Planet_0,
    {
        match self {
            Storage7573::Planet(id) => *id,
            _ => 0,
        }
    }
}

/// A tag stored and read back is the same tag.
pub proof fn storage7573_roundtrip(t: Storage7573)
    requires
        t != Storage7573::Invalid,
    ensures
        Storage7573::decode(t.encode()) == t,
{
}

/// A contact between two colliders, by their tags: the planet touched and
/// the player whose part touches it, when one side is a planet and the
/// other a player's part.  The first collider counts as the planet when
/// it is one.
pub open spec fn spec_planet_contact(a: Storage7573, b: Storage7573) -> Option<(u8, u16)> {
    match a {
        Storage7573::Planet(p) => match b {
            Storage7573::PartOfPlayer(player) => Some((p, player)),
            _ => None,
        },
        Storage7573::PartOfPlayer(player) => match b {
            Storage7573::Planet(p) => Some((p, player)),
            _ => None,
        },
        Storage7573::Invalid => None,
    }
}

/// Which planet a contact touches and whose part touches it; see
/// `spec_planet_contact`.
pub fn planet_contact(a: &Storage7573, b: &Storage7573) -> (r: Option<(u8, u16)>)
    ensures
        r == spec_planet_contact(*a, *b),
{
    match a {
        Storage7573::Planet(p) => match b {
            Storage7573::PartOfPlayer(player) => Some((*p, *player)),
            _ => None,
        },
        Storage7573::PartOfPlayer(player) => match b {
            Storage7573::Planet(p) => Some((*p, *player)),
            _ => None,
        },
        Storage7573::Invalid => None,
    }
}

/// In a pair of touching colliders where exactly one is a planet: the
/// planet's id, and whether the other collider is the first of the pair.
pub open spec fn spec_planet_in_pair(a: Storage7573, b: Storage7573) -> Option<(u8, bool)> {
    if (a is Planet) && !(b is Planet) {
        Some((a->Planet_0, false))
    } else if (b is Planet) && !(a is Planet) {
        Some((b->Planet_0, true))
    } else {
        None
    }
}

pub fn planet_in_pair(a: &Storage7573, b: &Storage7573) -> (r: Option<(u8, bool)>)
    ensures
        r == spec_planet_in_pair(*a, *b),
{
    let a_planet = matches!(a, Storage7573::Planet(_));
    let b_planet = matches!(b, Storage7573::Planet(_));
    if a_planet && !b_planet {
        Some((a.planet_id(), false))
    } else if b_planet && !a_planet {
        Some((b.planet_id(), true))
    } else {
        None
    }
}

} // verus!
