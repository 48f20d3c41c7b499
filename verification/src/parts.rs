//! Ship parts: what each kind of part stores and produces, how parts face
//! when attached to one another, and which way a thruster fires.
use vstd::prelude::*;
use crate::codec::{PartKind, ToClientMsg};
use crate::player::{PlayerMeta, TICKS_PER_SECOND};
use crate::world::PartHandle;
use crate::beamout::RecursivePartDescription;

verus! {

// ---------------------------------------------------------------- facing

/// The side of its parent a part is attached to, or a part's absolute
/// orientation when composed along a chain of attachments.
#[derive(Copy, Clone, PartialEq, Eq, Structural, Debug)]
pub enum AttachedPartFacing {
    Up,
    Right,
    Down,
    Left,
}

impl AttachedPartFacing {
    /// Quarter turns clockwise from `Up`.
    pub open spec fn quarter_turns(self) -> nat {
        match self {
            AttachedPartFacing::Up => 0,
            AttachedPartFacing::Right => 1,
            AttachedPartFacing::Down => 2,
            AttachedPartFacing::Left => 3,
        }
    }

    pub open spec fn from_turns(n: nat) -> AttachedPartFacing {
        if n % 4 == 0 {
            AttachedPartFacing::Up
        } else if n % 4 == 1 {
            AttachedPartFacing::Right
        } else if n % 4 == 2 {
            AttachedPartFacing::Down
        } else {
            AttachedPartFacing::Left
        }
    }

    /// The facing's number, 0 to 3.
    pub fn into(self) -> (r: u8)
        ensures
            r == self.quarter_turns(),
    {
        match self {
            AttachedPartFacing::Up => 0,
            AttachedPartFacing::Right => 1,
            AttachedPartFacing::Down => 2,
            AttachedPartFacing::Left => 3,
        }
    }

    /// The facing with the given number; numbers past 3 have none.
    pub fn from(other: u8) -> (r: AttachedPartFacing)
        requires
            other < 4,
        ensures
            r.quarter_turns() == other,
    {
        match other {
            0 => AttachedPartFacing::Up,
            1 => AttachedPartFacing::Right,
            2 => AttachedPartFacing::Down,
            _ => AttachedPartFacing::Left,
        }
    }

    /// The absolute facing of a part attached on this side of a parent
    /// whose own absolute facing is `parent_true_facing`: the two rotations
    /// added, modulo a full turn.
    pub fn compute_true_facing(&self, parent_true_facing: AttachedPartFacing) -> (r: AttachedPartFacing)
        ensures
            r == AttachedPartFacing::from_turns(
                parent_true_facing.quarter_turns() + self.quarter_turns(),
            ),
    {
        let parent_actual_rotation: u8 = parent_true_facing.into();
        let my_rotation: u8 = (*self).into();
        let num: u8 = parent_actual_rotation + my_rotation;
        if num > 3 {
            AttachedPartFacing::from(num - 4)
        } else {
            AttachedPartFacing::from(num)
        }
    }

    pub open spec fn delta(self) -> (int, int) {
        match self {
            AttachedPartFacing::Up => (0, 3),
            AttachedPartFacing::Right => (3, 0),
            AttachedPartFacing::Down => (0, -3),
            AttachedPartFacing::Left => (-3, 0),
        }
    }

    /// The step, in the grid of part positions, from a part to a part
    /// attached on this side of it.
    pub fn delta_rel_part(&self) -> (r: (i32, i32))
        ensures
            (r.0 as int, r.1 as int) == self.delta(),
    {
        let new_x = match self {
            AttachedPartFacing::Left => -3,
            AttachedPartFacing::Right => 3,
            _ => 0,
        };
        let new_y = match self {
            AttachedPartFacing::Up => 3,
            AttachedPartFacing::Down => -3,
            _ => 0,
        };
        (new_x, new_y)
    }
}

/// Composing facings is adding quarter turns: `Up` changes nothing, and the
/// order in which a chain of attachments is composed does not matter.
pub proof fn facing_composition_laws(a: AttachedPartFacing, b: AttachedPartFacing, c: AttachedPartFacing)
    ensures
        AttachedPartFacing::from_turns(a.quarter_turns()) == a,
        AttachedPartFacing::from_turns(AttachedPartFacing::Up.quarter_turns() + a.quarter_turns())
            == a,
        AttachedPartFacing::from_turns(a.quarter_turns() + b.quarter_turns())
            == AttachedPartFacing::from_turns(b.quarter_turns() + a.quarter_turns()),
        AttachedPartFacing::from_turns(
            AttachedPartFacing::from_turns(a.quarter_turns() + b.quarter_turns()).quarter_turns()
                + c.quarter_turns(),
        ) == AttachedPartFacing::from_turns(
            a.quarter_turns() + AttachedPartFacing::from_turns(
                b.quarter_turns() + c.quarter_turns(),
            ).quarter_turns(),
        ),
{
}

// ---------------------------------------------------------------- thrust modes

/// Which rotation input fires a thruster.
#[derive(Copy, Clone, PartialEq, Eq, Structural, Debug)]
pub enum HorizontalThrustMode {
    Clockwise,
    CounterClockwise,
    /// Fires for no rotation input.
    Off,
}

/// Which straight-line input, forwards or backwards, fires a thruster.
#[derive(Copy, Clone, PartialEq, Eq, Structural, Debug)]
pub enum VerticalThrustMode {
    Forwards,
    Backwards,
    /// Fires for no straight-line input.
    Off,
}

impl HorizontalThrustMode {
    /// The mode's bits: the low two bits of a packed thrust mode.
    pub open spec fn bits(self) -> u8 {
        match self {
            HorizontalThrustMode::CounterClockwise => 0,
            HorizontalThrustMode::Clockwise => 1,
            HorizontalThrustMode::Off => 2,
        }
    }

    pub open spec fn of_bits(b: u8) -> HorizontalThrustMode {
        if b % 4 == 0 {
            HorizontalThrustMode::CounterClockwise
        } else if b % 4 == 1 {
            HorizontalThrustMode::Clockwise
        } else {
            HorizontalThrustMode::Off
        }
    }

    pub fn into(self) -> (r: u8)
        ensures
            r == self.bits(),
    {
        match self {
            HorizontalThrustMode::CounterClockwise => 0b00000000,
            HorizontalThrustMode::Clockwise => 0b00000001,
            HorizontalThrustMode::Off => 0b00000010,
        }
    }

    /// Reads the low two bits of `val`; the pattern 3 stands for no mode.
    pub fn from(val: u8) -> (r: HorizontalThrustMode)
        requires
            val % 4 != 3,
        ensures
            r == HorizontalThrustMode::of_bits(val),
    {
        let bits = val & 0b00000011;
        assert(val & 3 == val % 4) by (bit_vector);
        match bits {
            0b00000000 => HorizontalThrustMode::CounterClockwise,
            0b00000001 => HorizontalThrustMode::Clockwise,
            _ => HorizontalThrustMode::Off,
        }
    }
}

impl VerticalThrustMode {
    /// The mode's bits: bits 2 and 3 of a packed thrust mode.
    pub open spec fn bits(self) -> u8 {
        match self {
            VerticalThrustMode::Backwards => 0,
            VerticalThrustMode::Forwards => 4,
            VerticalThrustMode::Off => 8,
        }
    }

    pub open spec fn of_bits(b: u8) -> VerticalThrustMode {
        if (b / 4) % 4 == 0 {
            VerticalThrustMode::Backwards
        } else if (b / 4) % 4 == 1 {
            VerticalThrustMode::Forwards
        } else {
            VerticalThrustMode::Off
        }
    }

    pub fn into(self) -> (r: u8)
        ensures
            r == self.bits(),
    {
        match self {
            VerticalThrustMode::Backwards => 0b00000000,
            VerticalThrustMode::Forwards => 0b00000100,
            VerticalThrustMode::Off => 0b00001000,
        }
    }

    /// Reads bits 2 and 3 of `val`; the pattern 3 stands for no mode.
    pub fn from(val: u8) -> (r: VerticalThrustMode)
        requires
            (val / 4) % 4 != 3,
        ensures
            r == VerticalThrustMode::of_bits(val),
    {
        let bits = val & 0b00001100;
        assert(val & 12 == ((val / 4) % 4) * 4) by (bit_vector);
        match bits {
            0b00000000 => VerticalThrustMode::Backwards,
            0b00000100 => VerticalThrustMode::Forwards,
            _ => VerticalThrustMode::Off,
        }
    }
}

/// A thruster's horizontal and vertical modes packed in one byte.
#[derive(Copy, Clone, Debug)]
pub struct CompactThrustMode(pub u8);

impl CompactThrustMode {
    /// Whether the mode names a direction for each kind of input.
    pub fn is_valid(&self) -> (r: bool)
        ensures
            r == self.valid(),
    {
        self.0 % 4 != 3 && (self.0 / 4) % 4 != 3
    }

    /// Both bit fields hold a mode.
    pub open spec fn valid(self) -> bool {
        self.0 % 4 != 3 && (self.0 / 4) % 4 != 3
    }

    pub open spec fn horizontal(self) -> HorizontalThrustMode {
        HorizontalThrustMode::of_bits(self.0)
    }

    pub open spec fn vertical(self) -> VerticalThrustMode {
        VerticalThrustMode::of_bits(self.0)
    }

    pub open spec fn pack(h: HorizontalThrustMode, v: VerticalThrustMode) -> u8 {
        (h.bits() + v.bits()) as u8
    }

    pub fn new(horizontal: HorizontalThrustMode, vertical: VerticalThrustMode) -> (r: CompactThrustMode)
        ensures
            r.0 == CompactThrustMode::pack(horizontal, vertical),
            r.valid(),
            r.horizontal() == horizontal,
            r.vertical() == vertical,
    {
        let horizontal_bits: u8 = horizontal.into();
        let vertical_bits: u8 = vertical.into();
        assert(horizontal_bits < 4 && vertical_bits % 4 == 0 && vertical_bits < 16 ==> horizontal_bits
            | vertical_bits == horizontal_bits + vertical_bits) by (bit_vector);
        CompactThrustMode(horizontal_bits | vertical_bits)
    }

    pub fn get_horizontal(&self) -> (r: HorizontalThrustMode)
        requires
            self.0 % 4 != 3,
        ensures
            r == self.horizontal(),
    {
        HorizontalThrustMode::from(self.0)
    }

    pub fn get_vertical(&self) -> (r: VerticalThrustMode)
        requires
            (self.0 / 4) % 4 != 3,
        ensures
            r == self.vertical(),
    {
        VerticalThrustMode::from(self.0)
    }

    pub fn get(&self) -> (r: (HorizontalThrustMode, VerticalThrustMode))
        requires
            self.valid(),
        ensures
            r == (self.horizontal(), self.vertical()),
    {
        (self.get_horizontal(), self.get_vertical())
    }

    /// Replaces the horizontal mode and keeps the vertical one.
    pub fn set_horizontal(&mut self, horizontal: HorizontalThrustMode)
        requires
            (old(self).0 / 4) % 4 != 3,
        ensures
            final(self).0 == CompactThrustMode::pack(horizontal, old(self).vertical()),
    {
        *self = CompactThrustMode::new(horizontal, self.get_vertical());
    }

    /// Replaces the vertical mode and keeps the horizontal one.
    pub fn set_vertical(&mut self, vertical: VerticalThrustMode)
        requires
            old(self).0 % 4 != 3,
        ensures
            final(self).0 == CompactThrustMode::pack(old(self).horizontal(), vertical),
    {
        *self = CompactThrustMode::new(self.get_horizontal(), vertical);
    }

    pub fn set(&mut self, horizontal: HorizontalThrustMode, vertical: VerticalThrustMode)
        ensures
            final(self).0 == CompactThrustMode::pack(horizontal, vertical),
    {
        *self = CompactThrustMode::new(horizontal, vertical);
    }

    /// The mode a thruster gets from where it sits: its absolute facing
    /// and its position relative to the core.
    pub open spec fn spec_calculate(facing: AttachedPartFacing, x: i32, y: i32) -> (
        HorizontalThrustMode,
        VerticalThrustMode,
    ) {
        let h = match facing {
            AttachedPartFacing::Up => if x < 0 {
                HorizontalThrustMode::CounterClockwise
            } else if x > 0 {
                HorizontalThrustMode::Clockwise
            } else {
                HorizontalThrustMode::Off
            },
            AttachedPartFacing::Right => if y > 0 {
                HorizontalThrustMode::CounterClockwise
            } else {
                HorizontalThrustMode::Clockwise
            },
            AttachedPartFacing::Down => if x < 0 {
                HorizontalThrustMode::Clockwise
            } else if x > 0 {
                HorizontalThrustMode::CounterClockwise
            } else {
                HorizontalThrustMode::Off
            },
            AttachedPartFacing::Left => if y > 0 {
                HorizontalThrustMode::Clockwise
            } else {
                HorizontalThrustMode::CounterClockwise
            },
        };
        let v = match facing {
            AttachedPartFacing::Up => VerticalThrustMode::Backwards,
            AttachedPartFacing::Down => VerticalThrustMode::Forwards,
            _ => VerticalThrustMode::Off,
        };
        (h, v)
    }

    pub fn calculate(part_true_facing: AttachedPartFacing, rel_part_x: i32, rel_part_y: i32) -> (r:
        CompactThrustMode)
        ensures
            r.0 == CompactThrustMode::pack(
                CompactThrustMode::spec_calculate(part_true_facing, rel_part_x, rel_part_y).0,
                CompactThrustMode::spec_calculate(part_true_facing, rel_part_x, rel_part_y).1,
            ),
            r.valid(),
            (r.horizontal(), r.vertical()) == CompactThrustMode::spec_calculate(
                part_true_facing,
                rel_part_x,
                rel_part_y,
            ),
            thrust_torque(part_true_facing, rel_part_x as int, rel_part_y as int) > 0 ==> r.horizontal()
                == HorizontalThrustMode::CounterClockwise,
            thrust_torque(part_true_facing, rel_part_x as int, rel_part_y as int) < 0 ==> r.horizontal()
                == HorizontalThrustMode::Clockwise,
            r.vertical() == push_direction(thrust_push(part_true_facing).1),
    {
        let x = rel_part_x;
        let y = rel_part_y;
        proof {
            lemma_torque(part_true_facing, x as int, y as int);
        }
        let hroizontal = match part_true_facing {
            AttachedPartFacing::Up => if x < 0 {
                HorizontalThrustMode::CounterClockwise
            } else if x > 0 {
                HorizontalThrustMode::Clockwise
            } else {
                HorizontalThrustMode::Off
            },
            AttachedPartFacing::Right => if y > 0 {
                HorizontalThrustMode::CounterClockwise
            } else {
                HorizontalThrustMode::Clockwise
            },
            AttachedPartFacing::Down => if x < 0 {
                HorizontalThrustMode::Clockwise
            } else if x > 0 {
                HorizontalThrustMode::CounterClockwise
            } else {
                HorizontalThrustMode::Off
            },
            AttachedPartFacing::Left => if y > 0 {
                HorizontalThrustMode::Clockwise
            } else {
                HorizontalThrustMode::CounterClockwise
            },
        };
        let vertical = match part_true_facing {
            AttachedPartFacing::Up => VerticalThrustMode::Backwards,
            AttachedPartFacing::Down => VerticalThrustMode::Forwards,
            AttachedPartFacing::Left | AttachedPartFacing::Right => VerticalThrustMode::Off,
        };
        CompactThrustMode::new(hroizontal, vertical)
    }

    pub fn from(byte: u8) -> (r: CompactThrustMode)
        ensures
            r.0 == byte,
    {
        CompactThrustMode(byte)
    }

    pub fn into(self) -> (r: u8)
        ensures
            r == self.0,
    {
        self.0
    }
}

/// The push of a thruster with this absolute facing: it pushes the ship
/// against the way it faces (one grid step, `delta`, the other way).
pub open spec fn thrust_push(facing: AttachedPartFacing) -> (int, int) {
    (-facing.delta().0, -facing.delta().1)
}

/// The turning effect about the core of that push applied at `(x, y)`:
/// the cross product of the place and the push, positive for a
/// counter-clockwise turn.
pub open spec fn thrust_torque(facing: AttachedPartFacing, x: int, y: int) -> int {
    x * thrust_push(facing).1 - y * thrust_push(facing).0
}

/// The straight-line input a push along the ship's length answers.
pub open spec fn push_direction(along: int) -> VerticalThrustMode {
    if along > 0 {
        VerticalThrustMode::Forwards
    } else if along < 0 {
        VerticalThrustMode::Backwards
    } else {
        VerticalThrustMode::Off
    }
}

proof fn lemma_torque(facing: AttachedPartFacing, x: int, y: int)
    ensures
        thrust_torque(facing, x, y) == match facing {
            AttachedPartFacing::Up => -3 * x,
            AttachedPartFacing::Right => 3 * y,
            AttachedPartFacing::Down => 3 * x,
            AttachedPartFacing::Left => -3 * y,
        },
{
    match facing {
        AttachedPartFacing::Up => assert(x * -3 - y * 0 == -3 * x) by (nonlinear_arith),
        AttachedPartFacing::Right => assert(x * 0 - y * -3 == 3 * y) by (nonlinear_arith),
        AttachedPartFacing::Down => assert(x * 3 - y * 0 == 3 * x) by (nonlinear_arith),
        AttachedPartFacing::Left => assert(x * 0 - y * 3 == -3 * y) by (nonlinear_arith),
    }
}

/// A thruster fires for the turn its push makes about the core: for a
/// counter-clockwise turn when its torque is positive, for a clockwise turn
/// when it is negative; one pushing straight through the core from ahead or
/// behind fires for no turn.  It fires for the straight-line input its push
/// along the ship's length answers: forwards when it pushes forwards,
/// backwards when it pushes backwards, and for neither when it pushes
/// sideways.
pub proof fn thrusters_fire_for_their_torque(facing: AttachedPartFacing, x: i32, y: i32)
    ensures
        thrust_torque(facing, x as int, y as int) > 0 ==> CompactThrustMode::spec_calculate(facing, x, y).0
            == HorizontalThrustMode::CounterClockwise,
        thrust_torque(facing, x as int, y as int) < 0 ==> CompactThrustMode::spec_calculate(facing, x, y).0
            == HorizontalThrustMode::Clockwise,
        thrust_torque(facing, x as int, y as int) == 0 && thrust_push(facing).0 == 0
            ==> CompactThrustMode::spec_calculate(facing, x, y).0 == HorizontalThrustMode::Off,
        CompactThrustMode::spec_calculate(facing, x, y).1 == push_direction(thrust_push(facing).1),
{
    lemma_torque(facing, x as int, y as int);
}

/// Turning a thruster and its place a quarter turn clockwise about the
/// core together does not change the turn it fires for (where its push
/// does not pass through the core); nor does a half turn.
pub proof fn thrust_modes_turn_with_the_ship(facing: AttachedPartFacing, x: i32, y: i32)
    requires
        thrust_torque(facing, x as int, y as int) != 0,
        -i32::MAX <= x,
        -i32::MAX <= y,
    ensures
        CompactThrustMode::spec_calculate(facing, x, y).0 == CompactThrustMode::spec_calculate(
            AttachedPartFacing::from_turns(facing.quarter_turns() + 1),
            y,
            (-x) as i32,
        ).0,
        CompactThrustMode::spec_calculate(facing, x, y).0 == CompactThrustMode::spec_calculate(
            AttachedPartFacing::from_turns(facing.quarter_turns() + 2),
            (-x) as i32,
            (-y) as i32,
        ).0,
{
    lemma_torque(facing, x as int, y as int);
}

impl Default for CompactThrustMode {
    /// The byte 0: counter-clockwise and backwards.
    fn default() -> (r: Self)
        ensures
            r.0 == 0,
    {
        CompactThrustMode(0)
    }
}

/// Packing two modes and reading them back gives the same modes,
/// replacing one of the two leaves the other as it was, and a byte with
/// only the mode bits set is the packing of its own two modes.
pub proof fn thrust_mode_laws(m: CompactThrustMode, h: HorizontalThrustMode, v: VerticalThrustMode)
    requires
        m.valid(),
    ensures
        CompactThrustMode(CompactThrustMode::pack(h, v)).valid(),
        CompactThrustMode(CompactThrustMode::pack(h, v)).horizontal() == h,
        CompactThrustMode(CompactThrustMode::pack(h, v)).vertical() == v,
        CompactThrustMode(CompactThrustMode::pack(h, m.vertical())).vertical() == m.vertical(),
        CompactThrustMode(CompactThrustMode::pack(m.horizontal(), v)).horizontal()
            == m.horizontal(),
        m.0 < 16 ==> CompactThrustMode(CompactThrustMode::pack(m.horizontal(), m.vertical())) == m,
{
}

// ---------------------------------------------------------------- part kinds

/// Power a core stores: 100 seconds of thrust.
pub open spec fn core_max_power() -> u32 {
    (100 * TICKS_PER_SECOND) as u32
}

impl PartKind {
    pub open spec fn spec_power_storage(self) -> u32 {
        match self {
            PartKind::Core => core_max_power(),
            PartKind::Cargo => 0,
            PartKind::LandingThruster => (core_max_power() / 5) as u32,
            PartKind::Hub => (core_max_power() / 3) as u32,
            PartKind::SolarPanel => 0,
        }
    }

    pub open spec fn spec_power_regen(self) -> u32 {
        match self {
            PartKind::SolarPanel => 2,
            _ => 0,
        }
    }

    /// How much power a part of this kind adds to its owner's maximum.
    pub fn power_storage(&self) -> (r: u32)
        ensures
            r == self.spec_power_storage(),
    {
        let core_max_power: u32 = 100 * TICKS_PER_SECOND as u32;
        match self {
            PartKind::Core => core_max_power,
            PartKind::Cargo => 0,
            PartKind::LandingThruster => core_max_power / 5,
            PartKind::Hub => core_max_power / 3,
            PartKind::SolarPanel => 0,
        }
    }

    /// How much power a part of this kind regenerates every five ticks.
    pub fn power_regen_per_5_ticks(&self) -> (r: u32)
        ensures
            r == self.spec_power_regen(),
    {
        match self {
            PartKind::SolarPanel => 2,
            _ => 0,
        }
    }

    /// Whether a part of this kind is kept when its ship beams out.
    pub fn can_beamout(&self) -> (r: bool)
        ensures
            r == (*self != PartKind::Cargo),
    {
        match self {
            PartKind::Cargo => false,
            _ => true,
        }
    }

    /// The power a thruster of this kind uses per tick of firing; `None`
    /// for kinds that do not thrust.  The core thrusts by other rules (see
    /// `thrust_no_recurse`).
    pub fn thrust(&self) -> (r: Option<u32>)
        requires
            *self != PartKind::Core,
        ensures
            r == (if *self == PartKind::LandingThruster {
                Some(2u32)
            } else {
                None::<u32>
            }),
    {
        match self {
            PartKind::LandingThruster => Some(2),
            _ => None,
        }
    }
}

// ---------------------------------------------------------------- firing

/// The forces a part applies in one tick: for a core, which of its four
/// corner thrusters fire; for any other part, whether its one thruster fires.
#[derive(Copy, Clone, PartialEq, Eq, Structural, Debug)]
pub struct ThrustForces {
    pub bottom_left: bool,
    pub bottom_right: bool,
    pub top_left: bool,
    pub top_right: bool,
    pub part: bool,
}

impl ThrustForces {
    pub open spec fn no_corner(self) -> bool {
        !self.bottom_left && !self.bottom_right && !self.top_left && !self.top_right
    }
}

/// Whether the rotation field of `mode` fires for the given inputs.
pub open spec fn rotation_fires(mode: CompactThrustMode, clockwise: bool, counter_clockwise: bool) -> bool {
    match mode.horizontal() {
        HorizontalThrustMode::Clockwise => clockwise,
        HorizontalThrustMode::CounterClockwise => counter_clockwise,
        HorizontalThrustMode::Off => false,
    }
}

/// The fields of `mode` that a part of `kind` reads when it thrusts for
/// the given rotation inputs hold a mode: a kind that thrusts reads its
/// rotation field, and its straight-line field only when the rotation
/// field does not fire; other kinds read neither.
pub open spec fn thrust_readable(kind: PartKind, mode: CompactThrustMode, clockwise: bool, counter_clockwise: bool) -> bool {
    kind == PartKind::LandingThruster ==> {
        &&& mode.0 % 4 != 3
        &&& !rotation_fires(mode, clockwise, counter_clockwise) ==> (mode.0 / 4) % 4 != 3
    }
}

/// Whether a thruster in mode `mode` fires for the given inputs.
pub open spec fn fires(
    mode: CompactThrustMode,
    forward: bool,
    backward: bool,
    clockwise: bool,
    counter_clockwise: bool,
) -> bool {
    (match mode.horizontal() {
        HorizontalThrustMode::Clockwise => clockwise,
        HorizontalThrustMode::CounterClockwise => counter_clockwise,
        HorizontalThrustMode::Off => false,
    }) || (match mode.vertical() {
        VerticalThrustMode::Forwards => forward,
        VerticalThrustMode::Backwards => backward,
        VerticalThrustMode::Off => false,
    })
}

/// What one part's thrust is for one tick, and the fuel left after it;
/// see `thrust_no_recurse`.
pub open spec fn thrust_effect(
    kind: PartKind,
    mode: CompactThrustMode,
    fuel: u32,
    forward: bool,
    backward: bool,
    clockwise: bool,
    counter_clockwise: bool,
) -> (ThrustForces, u32) {
    if kind == PartKind::Core {
        if fuel > 0 {
            (
                ThrustForces {
                    bottom_left: forward || counter_clockwise,
                    bottom_right: forward || clockwise,
                    top_left: backward || clockwise,
                    top_right: backward || counter_clockwise,
                    part: false,
                },
                if forward || backward || clockwise || counter_clockwise {
                    (fuel - 1) as u32
                } else {
                    fuel
                },
            )
        } else {
            (
                ThrustForces { bottom_left: false, bottom_right: false, top_left: false, top_right: false, part: false },
                fuel,
            )
        }
    } else {
        let fire = kind == PartKind::LandingThruster && fuel >= 2 && fires(
            mode,
            forward,
            backward,
            clockwise,
            counter_clockwise,
        );
        (
            ThrustForces { bottom_left: false, bottom_right: false, top_left: false, top_right: false, part: fire },
            if fire {
                (fuel - 2) as u32
            } else {
                fuel
            },
        )
    }
}

/// Decides one part's thrust for one tick and charges it to `fuel`.
///
/// A core with fuel left fires its corner thrusters for the inputs held
/// (forward or counter-clockwise: bottom-left; forward or clockwise:
/// bottom-right; backward or clockwise: top-left; backward or
/// counter-clockwise: top-right) and uses one unit if any fired.  Another
/// part fires when its mode matches an input held and the fuel covers its
/// cost, which is then taken.  The caller applies the forces.
pub fn thrust_no_recurse(
    kind: PartKind,
    thrust_mode: &CompactThrustMode,
    fuel: &mut u32,
    forward: bool,
    backward: bool,
    clockwise: bool,
    counter_clockwise: bool,
) -> (r: ThrustForces)
    requires
        thrust_readable(kind, *thrust_mode, clockwise, counter_clockwise),
    ensures
        (r, *final(fuel)) == thrust_effect(
            kind,
            *thrust_mode,
            *old(fuel),
            forward,
            backward,
            clockwise,
            counter_clockwise,
        ),
        kind == PartKind::Core ==> {
            &&& !r.part
            &&& if *old(fuel) > 0 {
                &&& r.bottom_left == (forward || counter_clockwise)
                &&& r.bottom_right == (forward || clockwise)
                &&& r.top_left == (backward || clockwise)
                &&& r.top_right == (backward || counter_clockwise)
                &&& *final(fuel) == if forward || backward || clockwise || counter_clockwise {
                    *old(fuel) - 1
                } else {
                    *old(fuel) as int
                }
            } else {
                &&& r.no_corner()
                &&& *final(fuel) == *old(fuel)
            }
        },
        kind != PartKind::Core ==> {
            &&& r.no_corner()
            &&& r.part == (kind == PartKind::LandingThruster && *old(fuel) >= 2 && fires(
                *thrust_mode,
                forward,
                backward,
                clockwise,
                counter_clockwise,
            ))
            &&& *final(fuel) == if r.part {
                *old(fuel) - 2
            } else {
                *old(fuel) as int
            }
        },
{
    let mut forces = ThrustForces {
        bottom_left: false,
        bottom_right: false,
        top_left: false,
        top_right: false,
        part: false,
    };
    match kind {
        PartKind::Core => {
            if *fuel > 0 {
                let mut subtract_fuel = false;
                if forward || counter_clockwise {
                    subtract_fuel = true;
                    forces.bottom_left = true;
                }
                if forward || clockwise {
                    subtract_fuel = true;
                    forces.bottom_right = true;
                }
                if backward || clockwise {
                    subtract_fuel = true;
                    forces.top_left = true;
                }
                if backward || counter_clockwise {
                    subtract_fuel = true;
                    forces.top_right = true;
                }
                if subtract_fuel {
                    *fuel = *fuel - 1;
                }
            }
        },
        _ => {
            if let Some(fuel_cost) = kind.thrust() {
                let should_fire = (match thrust_mode.get_horizontal() {
                    HorizontalThrustMode::Clockwise => clockwise,
                    HorizontalThrustMode::CounterClockwise => counter_clockwise,
                    HorizontalThrustMode::Off => false,
                }) || (match thrust_mode.get_vertical() {
                    VerticalThrustMode::Forwards => forward,
                    VerticalThrustMode::Backwards => backward,
                    VerticalThrustMode::Off => false,
                });
                if *fuel >= fuel_cost && should_fire {
                    *fuel = *fuel - fuel_cost;
                    forces.part = true;
                }
            }
        },
    }
    forces
}

// ---------------------------------------------------------------- attachment points

impl PartKind {
    /// The side each of a part's four attachment slots faces, or `None` for
    /// a slot the kind does not have.  (Where on the part a slot sits is
    /// geometry, kept with the physics.)
    pub open spec fn spec_attachment_facings(self) -> [Option<AttachedPartFacing>; 4] {
        match self {
            PartKind::Core => [
                Some(AttachedPartFacing::Up),
                Some(AttachedPartFacing::Right),
                Some(AttachedPartFacing::Down),
                Some(AttachedPartFacing::Left),
            ],
            PartKind::Hub => [
                None,
                Some(AttachedPartFacing::Left),
                Some(AttachedPartFacing::Up),
                Some(AttachedPartFacing::Right),
            ],
            _ => [None, None, None, None],
        }
    }

    pub fn attachment_facings(&self) -> (r: [Option<AttachedPartFacing>; 4])
        ensures
            r@ == self.spec_attachment_facings()@,
            forall|i: int, j: int|
                0 <= i < 4 && 0 <= j < 4 && i != j && (#[trigger] r@[i]) is Some ==> (#[trigger] r@[j])
                    != r@[i],
            *self == PartKind::Core ==> r@[0] == Some(AttachedPartFacing::Up) && forall|i: int|
                0 <= i < 3 ==> #[trigger] r@[i + 1] == Some(clockwise_of(r@[i]->0)),
    {
        match self {
            PartKind::Core => [
                Some(AttachedPartFacing::Up),
                Some(AttachedPartFacing::Right),
                Some(AttachedPartFacing::Down),
                Some(AttachedPartFacing::Left),
            ],
            PartKind::Hub => [
                None,
                Some(AttachedPartFacing::Left),
                Some(AttachedPartFacing::Up),
                Some(AttachedPartFacing::Right),
            ],
            _ => [None, None, None, None],
        }
    }
}

/// The facing a quarter turn clockwise of `f`.
pub open spec fn clockwise_of(f: AttachedPartFacing) -> AttachedPartFacing {
    AttachedPartFacing::from_turns(f.quarter_turns() + 1)
}

/// The slots of a part go round it clockwise.  A core has a slot on each of
/// its four sides, the first straight ahead; a hub has none on the side it
/// hangs from, so none of its slots faces back, and its middle slot faces
/// straight ahead.  Other parts have no slots.  So no two slots of one part
/// face the same way.
pub proof fn attachment_slots_go_round(k: PartKind)
    ensures
        k == PartKind::Core ==> {
            &&& k.spec_attachment_facings()@[0] == Some(AttachedPartFacing::Up)
            &&& forall|i: int| 0 <= i < 3 ==> #[trigger] k.spec_attachment_facings()@[i + 1] == Some(
                clockwise_of(k.spec_attachment_facings()@[i]->0),
            )
        },
        k == PartKind::Hub ==> {
            &&& k.spec_attachment_facings()@[0] is None
            &&& k.spec_attachment_facings()@[2] == Some(AttachedPartFacing::Up)
            &&& forall|i: int| 1 <= i < 3 ==> #[trigger] k.spec_attachment_facings()@[i + 1] == Some(
                clockwise_of(k.spec_attachment_facings()@[i]->0),
            )
            &&& forall|i: int| 0 <= i < 4 ==> #[trigger] k.spec_attachment_facings()@[i] != Some(
                AttachedPartFacing::Down,
            )
        },
        k != PartKind::Core && k != PartKind::Hub ==> forall|i: int|
            0 <= i < 4 ==> #[trigger] k.spec_attachment_facings()@[i] is None,
        forall|i: int, j: int|
            0 <= i < 4 && 0 <= j < 4 && i != j && (#[trigger] k.spec_attachment_facings()@[i]) is Some ==> (
            #[trigger] k.spec_attachment_facings()@[j]) != k.spec_attachment_facings()@[i],
{
}

/// Parts in two different slots of one parent never share a grid place or
/// an absolute facing, whatever the parent's own facing and place.
pub proof fn children_get_distinct_places(
    k: PartKind,
    parent_facing: AttachedPartFacing,
    px: int,
    py: int,
    i: int,
    j: int,
)
    requires
        0 <= i < 4,
        0 <= j < 4,
        i != j,
        k.spec_attachment_facings()@[i] is Some,
        k.spec_attachment_facings()@[j] is Some,
    ensures
        ({
            let fi = AttachedPartFacing::from_turns(
                parent_facing.quarter_turns() + k.spec_attachment_facings()@[i]->0.quarter_turns(),
            );
            let fj = AttachedPartFacing::from_turns(
                parent_facing.quarter_turns() + k.spec_attachment_facings()@[j]->0.quarter_turns(),
            );
            &&& fi != fj
            &&& (px + fi.delta().0, py + fi.delta().1) != (px + fj.delta().0, py + fj.delta().1)
        }),
{
    attachment_slots_go_round(k);
    assert(k.spec_attachment_facings()@[i] != k.spec_attachment_facings()@[j]);
}

// ---------------------------------------------------------------- parts

/// A part attached in one of its parent's slots.
#[derive(Copy, Clone, PartialEq, Eq, Structural, Debug)]
pub struct PartAttachment {
    pub part: PartHandle,
}

impl PartAttachment {
    /// The attached part.
    pub fn deref(&self) -> (r: PartHandle)
        ensures
            r == self.part,
    {
        self.part
    }

    /// Whether the attachment broke by itself.  It never does: the joints
    /// of an attachment are cut only when the physics strains them past
    /// their limits, during the tick (see `World::detach_broken`).
    pub fn is_broken(&self) -> (r: bool)
        ensures
            !r,
    {
        false
    }
}

/// A part of a ship or a free part: what the game logic knows of it.  Its
/// body, collider and joints live in the physics world.
pub struct Part {
    pub id: u16,
    pub kind: PartKind,
    pub attachments: [Option<PartAttachment>; 4],
    pub thrust_mode: CompactThrustMode,
    pub part_of_player: Option<u16>,
}

/// A player after a part of `kind` joins the ship: its maximum power and
/// regeneration grow by what the kind gives.
pub open spec fn joined_player(p: PlayerMeta, kind: PartKind) -> PlayerMeta {
    PlayerMeta {
        max_power: (p.max_power + kind.spec_power_storage()) as u32,
        power_regen_per_5_ticks: (p.power_regen_per_5_ticks + kind.spec_power_regen()) as u32,
        ..p
    }
}

/// A player after a part of `kind` leaves the ship: its maximum power and
/// regeneration shrink by what the kind gave, and its power is cut to the
/// new maximum.
pub open spec fn left_player(p: PlayerMeta, kind: PartKind) -> PlayerMeta {
    let max_power = (p.max_power - kind.spec_power_storage()) as u32;
    PlayerMeta {
        max_power,
        power_regen_per_5_ticks: (p.power_regen_per_5_ticks - kind.spec_power_regen()) as u32,
        power: if p.power > max_power {
            max_power
        } else {
            p.power
        },
        ..p
    }
}

impl Part {
    /// A part with nothing attached, belonging to no player.
    pub fn new(id: u16, kind: PartKind, thrust_mode: CompactThrustMode) -> (r: Part)
        ensures
            r.id == id,
            r.kind == kind,
            r.thrust_mode == thrust_mode,
            r.part_of_player is None,
            r.attachments@ == seq![None::<PartAttachment>, None, None, None],
    {
        Part { id, kind, attachments: [None, None, None, None], thrust_mode, part_of_player: None }
    }

    /// The part joins `player`'s ship: the player's maximum power and
    /// regeneration grow by what the part's kind gives.
    pub fn join_to(&mut self, player: &mut PlayerMeta)
        requires
            old(player).max_power + old(self).kind.spec_power_storage() <= u32::MAX,
            old(player).power_regen_per_5_ticks + old(self).kind.spec_power_regen() <= u32::MAX,
        ensures
            *final(player) == joined_player(*old(player), old(self).kind),
            *final(self) == (Part { part_of_player: Some(old(player).id), ..*old(self) }),
    {
        player.max_power = player.max_power + self.kind.power_storage();
        player.power_regen_per_5_ticks = player.power_regen_per_5_ticks + self.kind.power_regen_per_5_ticks();
        self.part_of_player = Some(player.id);
    }

    /// The part leaves `player`'s ship: the player loses what the part gave,
    /// and their power is cut to the new maximum.
    pub fn remove_from(&mut self, player: &mut PlayerMeta)
        requires
            old(player).max_power >= old(self).kind.spec_power_storage(),
            old(player).power_regen_per_5_ticks >= old(self).kind.spec_power_regen(),
        ensures
            *final(player) == left_player(*old(player), old(self).kind),
            *final(self) == (Part { part_of_player: None, ..*old(self) }),
    {
        player.max_power = player.max_power - self.kind.power_storage();
        player.power_regen_per_5_ticks = player.power_regen_per_5_ticks - self.kind.power_regen_per_5_ticks();
        if player.power > player.max_power {
            player.power = player.max_power;
        }
        self.part_of_player = None;
    }

    pub fn part_of_player(&self) -> (r: Option<u16>)
        ensures
            r == self.part_of_player,
    {
        self.part_of_player
    }

    pub fn id(&self) -> (r: u16)
        ensures
            r == self.id,
    {
        self.id
    }

    pub fn kind(&self) -> (r: PartKind)
        ensures
            r == self.kind,
    {
        self.kind
    }

    pub fn attachments(&self) -> (r: &[Option<PartAttachment>; 4])
        ensures
            r == &self.attachments,
    {
        &self.attachments
    }

    /// Attaches `part_handle` in slot `attachment_slot`, which must be free.
    pub fn attach_part_player_agnostic(&mut self, attachment_slot: usize, part_handle: PartHandle)
        requires
            attachment_slot < 4,
            old(self).attachments@[attachment_slot as int] is None,
        ensures
            final(self).attachments@ == old(self).attachments@.update(
                attachment_slot as int,
                Some(PartAttachment { part: part_handle }),
            ),
            final(self).id == old(self).id,
            final(self).kind == old(self).kind,
            final(self).thrust_mode == old(self).thrust_mode,
            final(self).part_of_player == old(self).part_of_player,
    {
        self.attachments[attachment_slot] = Some(PartAttachment { part: part_handle });
    }

    /// Empties slot `attachment_slot` and returns what was attached there.
    pub fn detach_part_player_agnostic(&mut self, attachment_slot: usize) -> (r: Option<PartHandle>)
        requires
            attachment_slot < 4,
        ensures
            final(self).attachments@ == old(self).attachments@.update(attachment_slot as int, None),
            r == match old(self).attachments@[attachment_slot as int] {
                Some(a) => Some(a.part),
                None => None,
            },
            final(self).id == old(self).id,
            final(self).kind == old(self).kind,
            final(self).thrust_mode == old(self).thrust_mode,
            final(self).part_of_player == old(self).part_of_player,
    {
        let previous = self.attachments[attachment_slot];
        self.attachments[attachment_slot] = None;
        match previous {
            Some(part_attachment) => Some(part_attachment.part),
            None => None,
        }
    }

    /// Tells clients that the part exists.
    pub fn add_msg(&self) -> (r: ToClientMsg)
        ensures
            r == (ToClientMsg::AddPart { id: self.id, kind: self.kind }),
    {
        ToClientMsg::AddPart { id: self.id, kind: self.kind }
    }

    /// Tells clients the part's owner and thrust mode.
    pub fn update_meta_msg(&self) -> (r: ToClientMsg)
        ensures
            r == (ToClientMsg::UpdatePartMeta {
                id: self.id,
                owning_player: self.part_of_player,
                thrust_mode: self.thrust_mode.0,
            }),
    {
        ToClientMsg::UpdatePartMeta {
            id: self.id,
            owning_player: self.part_of_player,
            thrust_mode: self.thrust_mode.into(),
        }
    }

    /// The messages that show the part to a client: that it exists, where
    /// its body is (see `move_msg`), and its owner and thrust mode.
    pub fn inflation_msgs(&self, x: u32, y: u32, rotation_n: u32, rotation_i: u32) -> (r: [ToClientMsg; 3])
        ensures
            r@ == seq![
                ToClientMsg::AddPart { id: self.id, kind: self.kind },
                ToClientMsg::MovePart { id: self.id, x, y, rotation_n, rotation_i },
                ToClientMsg::UpdatePartMeta {
                    id: self.id,
                    owning_player: self.part_of_player,
                    thrust_mode: self.thrust_mode.0,
                },
            ],
    {
        let r = [self.add_msg(), self.move_msg(x, y, rotation_n, rotation_i), self.update_meta_msg()];
        proof {
            assert(r@ =~= seq![r[0], r[1], r[2]]);
        }
        r
    }

    /// Tells clients where the part's body is: its position and rotation,
    /// each the bit pattern of an `f32`.
    pub fn move_msg(&self, x: u32, y: u32, rotation_n: u32, rotation_i: u32) -> (r: ToClientMsg)
        ensures
            r == (ToClientMsg::MovePart { id: self.id, x, y, rotation_n, rotation_i }),
    {
        ToClientMsg::MovePart { id: self.id, x, y, rotation_n, rotation_i }
    }

    /// Tells clients that the part is gone.
    pub fn remove_msg(&self) -> (r: ToClientMsg)
        ensures
            r == (ToClientMsg::RemovePart { id: self.id }),
    {
        ToClientMsg::RemovePart { id: self.id }
    }
}

/// A part that joins a ship and leaves it again takes back exactly what it
/// gave: the player is as before, but for its power, which is cut to its
/// maximum.
pub proof fn join_then_remove_restores(p: PlayerMeta, kind: PartKind)
    requires
        p.max_power + kind.spec_power_storage() <= u32::MAX,
        p.power_regen_per_5_ticks + kind.spec_power_regen() <= u32::MAX,
    ensures
        left_player(joined_player(p, kind), kind) == (PlayerMeta {
            power: if p.power > p.max_power {
                p.max_power
            } else {
                p.power
            },
            ..p
        }),
{
}

// ---------------------------------------------------------------- putting a saved ship into the world

/// One part to build when a saved ship is put into the world.  The plan
/// lists a part after everything attached to it (the order in which the
/// parts take their ids), so the ship's first part comes last.
#[derive(Copy, Clone, Debug)]
pub struct InflatedPart {
    pub kind: PartKind,
    /// For each slot, the place in the plan of the part attached there.
    pub attachments: [Option<usize>; 4],
    pub true_facing: AttachedPartFacing,
    pub rel_part_x: i32,
    pub rel_part_y: i32,
    pub thrust_mode: CompactThrustMode,
}

/// What the plan says of one part, in mathematical integers.
pub ghost struct PlannedPart {
    pub kind: PartKind,
    pub attachments: Seq<Option<int>>,
    pub true_facing: AttachedPartFacing,
    pub x: int,
    pub y: int,
}

impl InflatedPart {
    pub open spec fn planned(self) -> PlannedPart {
        PlannedPart {
            kind: self.kind,
            attachments: self.attachments@.map_values(
                |o: Option<usize>|
                    match o {
                        Some(v) => Some(v as int),
                        None => None,
                    },
            ),
            true_facing: self.true_facing,
            x: self.rel_part_x as int,
            y: self.rel_part_y as int,
        }
    }

    /// The entry agrees with what the plan says of it, and its thrust mode
    /// is the one its place gives.
    pub open spec fn is(self, p: PlannedPart) -> bool {
        &&& self.planned() == p
        &&& self.thrust_mode.0 == CompactThrustMode::pack(
            CompactThrustMode::spec_calculate(self.true_facing, self.rel_part_x, self.rel_part_y).0,
            CompactThrustMode::spec_calculate(self.true_facing, self.rel_part_x, self.rel_part_y).1,
        )
        &&& self.thrust_mode.valid()
        &&& (self.thrust_mode.horizontal(), self.thrust_mode.vertical())
            == CompactThrustMode::spec_calculate(self.true_facing, self.rel_part_x, self.rel_part_y)
    }
}

/// Every chain of attachments from `d` has at most `k` parts.
pub open spec fn within_depth(d: RecursivePartDescription, k: nat) -> bool
    decreases d,
{
    &&& k >= 1
    &&& forall|i: int|
        0 <= i < d.attachments@.len() ==> match #[trigger] d.attachments@[i] {
            None => true,
            Some(c) => within_depth(c, (k - 1) as nat),
        }
}

/// The part in slot `i` of `d` that gets built: one is there, and the kind
/// has that slot.
pub open spec fn built_child(d: RecursivePartDescription, i: int) -> Option<RecursivePartDescription> {
    if 0 <= i < 4 && i < d.attachments@.len() && d.kind.spec_attachment_facings()@[i] is Some {
        d.attachments@[i]
    } else {
        None
    }
}

/// The plan for `d` with absolute facing `facing` at grid place `(x, y)`,
/// its entries numbered from `base`.
pub open spec fn inflate_plan(d: RecursivePartDescription, facing: AttachedPartFacing, x: int, y: int, base: int) -> Seq<PlannedPart>
    decreases d, 5nat,
{
    let (parts, slots) = inflate_slots(d, facing, x, y, base, 4);
    parts.push(PlannedPart { kind: d.kind, attachments: slots, true_facing: facing, x, y })
}

/// The plans of the parts in slots `0..n` of `d`, one after the other,
/// and where each of them ends.
pub open spec fn inflate_slots(d: RecursivePartDescription, facing: AttachedPartFacing, x: int, y: int, base: int, n: nat) -> (Seq<PlannedPart>, Seq<Option<int>>)
    decreases d, n,
{
    if n == 0 {
        (seq![], seq![])
    } else {
        let (parts, slots) = inflate_slots(d, facing, x, y, base, (n - 1) as nat);
        let i = n - 1;
        if 0 <= i < 4 && i < d.attachments@.len() && d.kind.spec_attachment_facings()@[i] is Some
            && d.attachments@[i] is Some {
            let child = d.attachments@[i]->0;
            let cf = AttachedPartFacing::from_turns(
                facing.quarter_turns() + d.kind.spec_attachment_facings()@[i]->0.quarter_turns(),
            );
            let sub = inflate_plan(child, cf, x + cf.delta().0, y + cf.delta().1, base + parts.len());
            (parts + sub, slots.push(Some(base + parts.len() + sub.len() - 1)))
        } else {
            (parts, slots.push(None))
        }
    }
}

/// The largest grid offset a ship can reach: 3 per part on a chain.
pub open spec fn offset_fits(x: i32, y: i32, k: nat) -> bool {
    &&& -0x7fff_ffff + 3 * k <= x <= 0x7fff_ffff - 3 * k
    &&& -0x7fff_ffff + 3 * k <= y <= 0x7fff_ffff - 3 * k
}

pub open spec fn plan_is(plan: Seq<InflatedPart>, parts: Seq<PlannedPart>) -> bool {
    &&& plan.len() == parts.len()
    &&& forall|j: int| 0 <= j < plan.len() ==> (#[trigger] plan[j]).is(parts[j])
}

impl RecursivePartDescription {
    /// Whether every chain of attachments from this part has at most `k`
    /// parts (see `within_depth`).
    pub fn depth_within(&self, k: u32) -> (r: bool)
        ensures
            r == within_depth(*self, k as nat),
        decreases self,
    {
        if k == 0 {
            return false;
        }
        let mut i: usize = 0;
        while i < self.attachments.len()
            invariant
                k >= 1,
                i <= self.attachments@.len(),
                forall|j: int|
                    0 <= j < i ==> match #[trigger] self.attachments@[j] {
                        None => true,
                        Some(c) => within_depth(c, (k - 1) as nat),
                    },
            decreases self.attachments@.len() - i,
        {
            match &self.attachments[i] {
                Some(c) => {
                    if !c.depth_within(k - 1) {
                        return false;
                    }
                },
                None => {},
            }
            i = i + 1;
        }
        true
    }

    /// The plan for putting this saved ship into the world: its first part
    /// faces up at the origin, and each part hangs in its parent's slot
    /// with the facing and place that slot gives.  Slots past the fourth,
    /// and slots the part's kind does not have, are left empty together
    /// with what hangs in them.
    pub fn inflate(&self) -> (r: Vec<InflatedPart>)
        requires
            within_depth(*self, 0x2aaa_aaaa),
        ensures
            plan_is(r@, inflate_plan(*self, AttachedPartFacing::Up, 0, 0, 0)),
    {
        let mut plan: Vec<InflatedPart> = Vec::new();
        self.inflate_component(AttachedPartFacing::Up, 0, 0, &mut plan, Ghost(0x2aaa_aaaanat));
        proof {
            assert(plan@.subrange(0, plan@.len() as int) =~= plan@);
        }
        plan
    }

    fn inflate_component(
        &self,
        true_facing: AttachedPartFacing,
        rel_part_x: i32,
        rel_part_y: i32,
        plan: &mut Vec<InflatedPart>,
        Ghost(k): Ghost<nat>,
    )
        requires
            within_depth(*self, k),
            offset_fits(rel_part_x, rel_part_y, k),
        ensures
            old(plan)@.len() < final(plan)@.len(),
            final(plan)@.subrange(0, old(plan)@.len() as int) == old(plan)@,
            plan_is(
                final(plan)@.subrange(old(plan)@.len() as int, final(plan)@.len() as int),
                inflate_plan(*self, true_facing, rel_part_x as int, rel_part_y as int, old(plan)@.len() as int),
            ),
        decreases *self,
    {
        let ghost start = plan@;
        let ghost base = start.len() as int;
        let facings = self.kind.attachment_facings();
        let mut slots: [Option<usize>; 4] = [None, None, None, None];
        let mut i: usize = 0;
        while i < 4
            invariant
                0 <= i <= 4,
                within_depth(*self, k),
                offset_fits(rel_part_x, rel_part_y, k),
                facings@ == self.kind.spec_attachment_facings()@,
                base == start.len(),
                base <= plan@.len(),
                plan@.subrange(0, base) == start,
                forall|j: int| i <= j < 4 ==> slots@[j] is None,
                ({
                    let (parts, sl) = inflate_slots(*self, true_facing, rel_part_x as int, rel_part_y as int, base, i as nat);
                    &&& plan_is(plan@.subrange(base, plan@.len() as int), parts)
                    &&& slots@.subrange(0, i as int).map_values(
                        |o: Option<usize>|
                            match o {
                                Some(v) => Some(v as int),
                                None => None,
                            },
                    ) == sl
                }),
            decreases 4 - i,
        {
            let ghost before = plan@;
            let ghost prev = inflate_slots(*self, true_facing, rel_part_x as int, rel_part_y as int, base, i as nat);
            let ghost old_slots = slots@;
            if i < self.attachments.len() {
                match (&self.attachments[i], facings[i]) {
                    (Some(child), Some(facing)) => {
                        proof {
                            assert(within_depth(*child, (k - 1) as nat));
                        }
                        let cf = facing.compute_true_facing(true_facing);
                        let (dx, dy) = cf.delta_rel_part();
                        child.inflate_component(cf, rel_part_x + dx, rel_part_y + dy, plan, Ghost((k - 1) as nat));
                        slots[i] = Some(plan.len() - 1);
                        proof {
                            let sub = inflate_plan(*child, cf, (rel_part_x + dx) as int, (rel_part_y + dy) as int, before.len() as int);
                            assert(plan@.subrange(0, before.len() as int) == before);
                            assert(plan@.subrange(0, base) =~= before.subrange(0, base));
                            let mid = plan@.subrange(base, plan@.len() as int);
                            assert(mid.subrange(0, prev.0.len() as int) =~= before.subrange(base, before.len() as int));
                            assert(mid.subrange(prev.0.len() as int, mid.len() as int) =~= plan@.subrange(before.len() as int, plan@.len() as int));
                            assert(plan_is(mid, prev.0 + sub)) by {
                                assert forall|j: int| 0 <= j < mid.len() implies (#[trigger] mid[j]).is((prev.0 + sub)[j]) by {
                                    if j < prev.0.len() {
                                        assert(mid[j] == mid.subrange(0, prev.0.len() as int)[j]);
                                    } else {
                                        assert(mid[j] == mid.subrange(prev.0.len() as int, mid.len() as int)[j - prev.0.len()]);
                                    }
                                }
                            }
                            assert(slots@.subrange(0, i + 1) =~= old_slots.subrange(0, i as int).push(Some((plan.len() - 1) as usize)));
                            assert(slots@.subrange(0, i + 1).map_values(
                                |o: Option<usize>|
                                    match o {
                                        Some(v) => Some(v as int),
                                        None => None,
                                    },
                            ) =~= prev.1.push(Some(base + prev.0.len() + sub.len() - 1)));
                        }
                    },
                    _ => {
                        proof {
                            assert(slots@.subrange(0, i + 1) =~= old_slots.subrange(0, i as int).push(None));
                            assert(slots@.subrange(0, i + 1).map_values(
                                |o: Option<usize>|
                                    match o {
                                        Some(v) => Some(v as int),
                                        None => None,
                                    },
                            ) =~= prev.1.push(None));
                        }
                    },
                }
            } else {
                proof {
                    assert(slots@.subrange(0, i + 1) =~= old_slots.subrange(0, i as int).push(None));
                    assert(slots@.subrange(0, i + 1).map_values(
                        |o: Option<usize>|
                            match o {
                                Some(v) => Some(v as int),
                                None => None,
                            },
                    ) =~= prev.1.push(None));
                }
            }
            i = i + 1;
        }
        let thrust_mode = CompactThrustMode::calculate(true_facing, rel_part_x, rel_part_y);
        let ghost before = plan@;
        plan.push(InflatedPart {
            kind: self.kind,
            attachments: slots,
            true_facing,
            rel_part_x,
            rel_part_y,
            thrust_mode,
        });
        proof {
            let (parts, sl) = inflate_slots(*self, true_facing, rel_part_x as int, rel_part_y as int, base, 4);
            assert(slots@.subrange(0, 4) =~= slots@);
            assert(plan@.subrange(0, before.len() as int) =~= before);
            assert(plan@.subrange(0, base) =~= before.subrange(0, base));
            let mid = plan@.subrange(base, plan@.len() as int);
            assert(mid.subrange(0, mid.len() - 1) =~= before.subrange(base, before.len() as int));
            assert forall|j: int| 0 <= j < mid.len() implies (#[trigger] mid[j]).is(parts.push(PlannedPart { kind: self.kind, attachments: sl, true_facing, x: rel_part_x as int, y: rel_part_y as int })[j]) by {
                if j < mid.len() - 1 {
                    assert(mid[j] == mid.subrange(0, mid.len() - 1)[j]);
                }
            }
        }
    }
}

} // verus!
