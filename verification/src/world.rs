//! Handles to the bodies of the world, and what a walk over a ship's
//! attachment tree knows at each part.
use vstd::prelude::*;
use generational_arena::{Arena, Index};
use crate::parts::{thrust_readable, HorizontalThrustMode, AttachedPartFacing, Part, PartAttachment, InflatedPart, PlannedPart, ThrustForces, thrust_effect, thrust_no_recurse, offset_fits, left_player, joined_player, inflate_plan, inflate_slots, built_child, plan_is};
use crate::codec::{PartKind, ToClientMsg};
use crate::player::PlayerMeta;
use crate::beamout::RecursivePartDescription;

verus! {

/// Names a body of the world: a celestial object, a free part, or a part
/// of a player's ship (player id, part id).
#[derive(Copy, Clone, PartialEq, Eq, Structural, Hash, Debug)]
pub enum MyHandle {
    CelestialObject(u16),
    FreePart(u16),
    PlayerPart(u16, u16),
}

/// Names a part in the world's part store: the slot it sits in, and the
/// generation of that slot (a slot that is emptied and filled again gets
/// a new one, so an old handle finds nothing).
#[derive(Copy, Clone, PartialEq, Eq, Structural, PartialOrd, Ord, Hash, Debug)]
pub struct PartHandle {
    pub index: usize,
    pub generation: u64,
}

/// Marks a body of the world as the planet with the given id.
#[derive(Copy, Clone, PartialEq, Eq, Structural, Debug)]
pub struct AmPlanet {
    pub id: u8,
}

/// Where a part sits in its ship, relative to the core: its grid offset,
/// the side of its parent it is attached to, and its absolute facing.
#[derive(Copy, Clone, PartialEq, Eq, Structural, Debug)]
pub struct PartVisitDetails {
    pub part_rel_x: i32,
    pub part_rel_y: i32,
    pub my_facing: AttachedPartFacing,
    pub true_facing: AttachedPartFacing,
}

impl PartVisitDetails {
    /// The details of the core: at the origin, facing up.
    pub fn default() -> (r: Self)
        ensures
            r.part_rel_x == 0,
            r.part_rel_y == 0,
            r.my_facing == AttachedPartFacing::Up,
            r.true_facing == AttachedPartFacing::Up,
    {
        PartVisitDetails {
            part_rel_x: 0,
            part_rel_y: 0,
            my_facing: AttachedPartFacing::Up,
            true_facing: AttachedPartFacing::Up,
        }
    }
}

// ---------------------------------------------------------------- the part store

#[verifier::external_type_specification]
#[verifier::external_body]
#[verifier::reject_recursive_types(T)]
pub struct ExArena<T>(generational_arena::Arena<T>);

/// What an arena of parts holds: each live handle with its part.
pub uninterp spec fn arena_parts(a: Arena<Part>) -> Map<PartHandle, Part>;

/// Calls `Arena::new`: an arena that holds nothing.
#[verifier::external_body]
fn arena_new() -> (r: Arena<Part>)
    ensures
        arena_parts(r).dom().is_empty(),
{
    Arena::new()
}

/// Calls `Arena::insert` and takes the returned index apart.  The part is
/// stored under the returned handle, which named no part before: a reused
/// slot gets the arena's current generation, which no part stored in that
/// slot has.
#[verifier::external_body]
fn arena_insert(a: &mut Arena<Part>, p: Part) -> (h: PartHandle)
    ensures
        !arena_parts(*old(a)).contains_key(h),
        arena_parts(*final(a)) == arena_parts(*old(a)).insert(h, p),
{
    let (index, generation) = a.insert(p).into_raw_parts();
    PartHandle { index, generation }
}

/// Calls `Arena::get` with the index the handle names: the part stored
/// under it, if any.
#[verifier::external_body]
fn arena_get(a: &Arena<Part>, h: PartHandle) -> (r: Option<&Part>)
    ensures
        match r {
            Some(p) => arena_parts(*a).contains_key(h) && *p == arena_parts(*a)[h],
            None => !arena_parts(*a).contains_key(h),
        },
{
    a.get(Index::from_raw_parts(h.index, h.generation))
}

/// Calls `Arena::get_mut` with the index the handle names: the part stored
/// under it, if any, to change in place.
#[verifier::external_body]
fn arena_get_mut(a: &mut Arena<Part>, h: PartHandle) -> (r: Option<&mut Part>)
    ensures
        match r {
            Some(p) => arena_parts(*old(a)).contains_key(h) && *p == arena_parts(*old(a))[h]
                && arena_parts(*final(a)) == arena_parts(*old(a)).insert(h, *final(p)),
            None => !arena_parts(*old(a)).contains_key(h) && arena_parts(*final(a)) == arena_parts(*old(a)),
        },
{
    a.get_mut(Index::from_raw_parts(h.index, h.generation))
}

/// Calls `Arena::remove` with the index the handle names: the part stored
/// under it, if any, which the arena no longer holds.
#[verifier::external_body]
fn arena_remove(a: &mut Arena<Part>, h: PartHandle) -> (r: Option<Part>)
    ensures
        match r {
            Some(p) => arena_parts(*old(a)).contains_key(h) && p == arena_parts(*old(a))[h]
                && arena_parts(*final(a)) == arena_parts(*old(a)).remove(h),
            None => !arena_parts(*old(a)).contains_key(h) && arena_parts(*final(a)) == arena_parts(*old(a)),
        },
{
    a.remove(Index::from_raw_parts(h.index, h.generation))
}

/// The parts of the world, each under its handle.  Their bodies, colliders
/// and joints are kept by the physics, beside this store.
pub struct World {
    parts: Arena<Part>,
}

impl View for World {
    type V = Map<PartHandle, Part>;

    closed spec fn view(&self) -> Map<PartHandle, Part> {
        arena_parts(self.parts)
    }
}

/// The part attached in slot `i` of `p`, if any.
pub open spec fn child(p: Part, i: int) -> Option<PartHandle> {
    match p.attachments@[i] {
        Some(a) => Some(a.part),
        None => None,
    }
}

/// Every part attached below `p`, at any depth, is in `m`, and every chain
/// of attachments from `p` has at most `n` parts.
pub open spec fn tree_within(m: Map<PartHandle, Part>, p: Part, n: nat) -> bool
    decreases n,
{
    &&& n >= 1
    &&& forall|i: int|
        0 <= i < 4 ==> match #[trigger] child(p, i) {
            Some(c) => m.contains_key(c) && tree_within(m, m[c], (n - 1) as nat),
            None => true,
        }
}

/// `p` and the parts below it form a finite tree in `m`.
pub open spec fn is_tree(m: Map<PartHandle, Part>, p: Part) -> bool {
    exists|n: nat| tree_within(m, p, n)
}

/// `d` describes `p` with everything attached below it: its kind, and for
/// each of its four slots what hangs there.
pub open spec fn deflates_to(d: RecursivePartDescription, p: Part, m: Map<PartHandle, Part>) -> bool
    decreases d,
{
    &&& d.kind == p.kind
    &&& d.attachments@.len() == 4
    &&& forall|i: int|
        0 <= i < 4 ==> match #[trigger] child(p, i) {
            None => d.attachments@[i] is None,
            Some(c) => d.attachments@[i] matches Some(dc) && m.contains_key(c) && deflates_to(dc, m[c], m),
        }
}

impl World {
    /// A world without parts.
    pub fn new() -> (r: World)
        ensures
            r@ == Map::<PartHandle, Part>::empty(),
    {
        World { parts: arena_new() }
    }

    /// Stores a part under a handle that named nothing before.
    pub fn add_part(&mut self, p: Part) -> (h: PartHandle)
        ensures
            !old(self)@.contains_key(h),
            final(self)@ == old(self)@.insert(h, p),
    {
        arena_insert(&mut self.parts, p)
    }

    pub fn get_part(&self, h: PartHandle) -> (r: Option<&Part>)
        ensures
            match r {
                Some(p) => self@.contains_key(h) && *p == self@[h],
                None => !self@.contains_key(h),
            },
    {
        arena_get(&self.parts, h)
    }

    /// Takes a part out of the world, if it is there.
    pub fn remove_part(&mut self, h: PartHandle) -> (r: Option<Part>)
        ensures
            match r {
                Some(p) => old(self)@.contains_key(h) && p == old(self)@[h] && final(self)@ == old(self)@.remove(h),
                None => !old(self)@.contains_key(h) && final(self)@ == old(self)@,
            },
    {
        arena_remove(&mut self.parts, h)
    }

    /// Takes out a part that is known to be there.
    pub fn remove_part_unchecked(&mut self, h: PartHandle) -> (r: Part)
        requires
            old(self)@.contains_key(h),
        ensures
            r == old(self)@[h],
            final(self)@ == old(self)@.remove(h),
    {
        match arena_remove(&mut self.parts, h) {
            Some(p) => p,
            None => vstd::pervasive::unreached(),
        }
    }

    /// The part stored under `h`, to change in place, if any.
    pub fn get_part_mut(&mut self, h: PartHandle) -> (r: Option<&mut Part>)
        ensures
            match r {
                Some(p) => old(self)@.contains_key(h) && *p == old(self)@[h] && final(self)@ == old(self)@.insert(h, *final(p)),
                None => !old(self)@.contains_key(h) && final(self)@ == old(self)@,
            },
    {
        arena_get_mut(&mut self.parts, h)
    }
}

impl Part {
    /// The saved form of this part and everything attached below it.
    pub fn deflate(&self, world: &World) -> (r: RecursivePartDescription)
        requires
            is_tree(world@, *self),
        ensures
            deflates_to(r, *self, world@),
    {
        let ghost n = choose|n: nat| tree_within(world@, *self, n);
        self.deflate_within(world, Ghost(n))
    }

    fn deflate_within(&self, world: &World, Ghost(n): Ghost<nat>) -> (r: RecursivePartDescription)
        requires
            tree_within(world@, *self, n),
        ensures
            deflates_to(r, *self, world@),
        decreases n,
    {
        let mut attachments: Vec<Option<RecursivePartDescription>> = Vec::new();
        let mut i: usize = 0;
        while i < 4
            invariant
                i <= 4,
                tree_within(world@, *self, n),
                attachments@.len() == i,
                forall|j: int|
                    0 <= j < i ==> match #[trigger] child(*self, j) {
                        None => attachments@[j] is None,
                        Some(c) => attachments@[j] matches Some(dc) && world@.contains_key(c) && deflates_to(
                            dc,
                            world@[c],
                            world@,
                        ),
                    },
            decreases 4 - i,
        {
            proof {
                assert(child(*self, i as int) == child(*self, i as int));
            }
            match &self.attachments[i] {
                Some(a) => {
                    match world.get_part(a.part) {
                        Some(p) => {
                            let d = p.deflate_within(world, Ghost((n - 1) as nat));
                            attachments.push(Some(d));
                        },
                        None => {
                            vstd::pervasive::unreached()
                        },
                    }
                },
                None => {
                    attachments.push(None);
                },
            }
            i = i + 1;
        }
        RecursivePartDescription { kind: self.kind, attachments }
    }
}

/// The parts attached below `p` (not `p` itself), in the order a
/// depth-first walk meets them: slot by slot, each part before the parts
/// attached below it.  `n` bounds the depth of the walk.
pub open spec fn below(m: Map<PartHandle, Part>, p: Part, n: nat) -> Seq<PartHandle>
    decreases n, 5nat,
{
    if n == 0 {
        seq![]
    } else {
        below_slots(m, p, n, 4)
    }
}

/// The walk below `p` through its first `k` slots.
pub open spec fn below_slots(m: Map<PartHandle, Part>, p: Part, n: nat, k: nat) -> Seq<PartHandle>
    decreases n, k,
{
    if k == 0 || n == 0 || k > 4 {
        seq![]
    } else {
        below_slots(m, p, n, (k - 1) as nat) + match child(p, k - 1) {
            Some(c) => if m.contains_key(c) {
                seq![c] + below(m, m[c], (n - 1) as nat)
            } else {
                seq![]
            },
            None => seq![],
        }
    }
}

/// The parts of the tree rooted at `h`: `h` first, then the parts below
/// it, walked depth first.
pub open spec fn tree_order(m: Map<PartHandle, Part>, h: PartHandle) -> Seq<PartHandle> {
    seq![h] + below_of(m, h)
}

/// The parts attached below `h`, at any depth, walked depth first.
pub open spec fn below_of(m: Map<PartHandle, Part>, h: PartHandle) -> Seq<PartHandle> {
    below(m, m[h], choose|n: nat| tree_within(m, m[h], n))
}

/// The walk does not depend on the bound, once the bound covers the tree.
proof fn lemma_below_fuel(m: Map<PartHandle, Part>, p: Part, n: nat, n2: nat)
    requires
        tree_within(m, p, n),
        n <= n2,
    ensures
        below(m, p, n) == below(m, p, n2),
    decreases n,
{
    lemma_below_slots_fuel(m, p, n, n2, 4);
}

proof fn lemma_below_slots_fuel(m: Map<PartHandle, Part>, p: Part, n: nat, n2: nat, k: nat)
    requires
        tree_within(m, p, n),
        n <= n2,
        k <= 4,
    ensures
        below_slots(m, p, n, k) == below_slots(m, p, n2, k),
    decreases n, k,
{
    if k > 0 {
        lemma_below_slots_fuel(m, p, n, n2, (k - 1) as nat);
        match child(p, k - 1) {
            Some(c) => {
                assert(m.contains_key(c) && tree_within(m, m[c], (n - 1) as nat));
                lemma_below_fuel(m, m[c], (n - 1) as nat, (n2 - 1) as nat);
            },
            None => {},
        }
    }
}

/// Every part attached below `p` is in `m`, at most `n` deep.
proof fn lemma_below_in_world(m: Map<PartHandle, Part>, p: Part, n: nat)
    requires
        tree_within(m, p, n),
    ensures
        forall|j: int| 0 <= j < below(m, p, n).len() ==> m.contains_key(#[trigger] below(m, p, n)[j]),
    decreases n,
{
    lemma_below_slots_in_world(m, p, n, 4);
    assert(below(m, p, n) == below_slots(m, p, n, 4));
}

proof fn lemma_below_slots_in_world(m: Map<PartHandle, Part>, p: Part, n: nat, k: nat)
    requires
        tree_within(m, p, n),
        k <= 4,
    ensures
        forall|j: int| 0 <= j < below_slots(m, p, n, k).len() ==> m.contains_key(#[trigger] below_slots(m, p, n, k)[j]),
    decreases n, k,
{
    if k > 0 {
        lemma_below_slots_in_world(m, p, n, (k - 1) as nat);
        let prev = below_slots(m, p, n, (k - 1) as nat);
        match child(p, k - 1) {
            Some(c) => {
                lemma_below_in_world(m, m[c], (n - 1) as nat);
                let sub = below(m, m[c], (n - 1) as nat);
                let all = below_slots(m, p, n, k);
                assert(all == prev + (seq![c] + sub));
                assert forall|j: int| 0 <= j < all.len() implies m.contains_key(#[trigger] all[j]) by {
                    if j < prev.len() {
                        assert(all[j] == prev[j]);
                    } else if j == prev.len() {
                        assert(all[j] == c);
                    } else {
                        assert(all[j] == sub[j - prev.len() - 1]);
                    }
                }
            },
            None => {
                assert(below_slots(m, p, n, k) == prev + Seq::<PartHandle>::empty());
                assert(below_slots(m, p, n, k) =~= prev);
            },
        }
    }
}

impl World {
    /// The parts attached below `p`, walked depth first (see `below`), in
    /// `out` after what it held.
    pub fn walk_below(&self, p: &Part, out: &mut Vec<PartHandle>)
        requires
            is_tree(self@, *p),
        ensures
            forall|n: nat| tree_within(self@, *p, n) ==> final(out)@ == old(out)@ + below(self@, *p, n),
    {
        let ghost n = choose|n: nat| tree_within(self@, *p, n);
        self.walk_below_within(p, out, Ghost(n));
        proof {
            assert forall|n2: nat| tree_within(self@, *p, n2) implies final(out)@ == old(out)@ + below(self@, *p, n2) by {
                if n <= n2 {
                    lemma_below_fuel(self@, *p, n, n2);
                } else {
                    lemma_below_fuel(self@, *p, n2, n);
                }
            }
        }
    }

    fn walk_below_within(&self, p: &Part, out: &mut Vec<PartHandle>, Ghost(n): Ghost<nat>)
        requires
            tree_within(self@, *p, n),
        ensures
            final(out)@ == old(out)@ + below(self@, *p, n),
        decreases n,
    {
        let ghost start = out@;
        let mut i: usize = 0;
        proof {
            assert(start + below_slots(self@, *p, n, 0) =~= start);
        }
        while i < 4
            invariant
                i <= 4,
                tree_within(self@, *p, n),
                out@ == start + below_slots(self@, *p, n, i as nat),
            decreases 4 - i,
        {
            let ghost before = out@;
            proof {
                assert(child(*p, i as int) == child(*p, i as int));
            }
            match &p.attachments[i] {
                Some(a) => {
                    let h = a.part;
                    match self.get_part(h) {
                        Some(c) => {
                            out.push(h);
                            self.walk_below_within(c, out, Ghost((n - 1) as nat));
                            proof {
                                assert(out@ =~= start + below_slots(self@, *p, n, (i + 1) as nat));
                            }
                        },
                        None => {
                            vstd::pervasive::unreached()
                        },
                    }
                },
                None => {
                    proof {
                        assert(out@ =~= start + below_slots(self@, *p, n, (i + 1) as nat));
                    }
                },
            }
            i = i + 1;
        }
        proof {
            assert(below(self@, *p, n) == below_slots(self@, *p, n, 4));
        }
    }

    /// The parts of the tree rooted at `h`: `h` first, then the parts below
    /// it, walked depth first.  The order in which the physics reports the
    /// parts' places.
    pub fn subtree_order(&self, h: PartHandle) -> (r: Vec<PartHandle>)
        requires
            self@.contains_key(h),
            is_tree(self@, self@[h]),
        ensures
            r@ == tree_order(self@, h),
    {
        let mut out: Vec<PartHandle> = Vec::new();
        out.push(h);
        match self.get_part(h) {
            Some(p) => {
                self.walk_below(p, &mut out);
                proof {
                    let n = choose|n: nat| tree_within(self@, self@[h], n);
                    assert(tree_within(self@, self@[h], n));
                    assert(out@ == seq![h] + below(self@, self@[h], n));
                }
            },
            None => {
                vstd::pervasive::unreached()
            },
        }
        out
    }
}

/// The thrust of each part in `order`, one after the other, charged to
/// one supply of fuel; and the fuel left.
pub open spec fn thrust_walk(
    m: Map<PartHandle, Part>,
    order: Seq<PartHandle>,
    fuel: u32,
    forward: bool,
    backward: bool,
    clockwise: bool,
    counter_clockwise: bool,
) -> (Seq<ThrustForces>, u32)
    decreases order.len(),
{
    if order.len() == 0 {
        (seq![], fuel)
    } else {
        let (fs, f1) = thrust_walk(m, order.drop_last(), fuel, forward, backward, clockwise, counter_clockwise);
        let p = m[order.last()];
        let (t, f2) = thrust_effect(p.kind, p.thrust_mode, f1, forward, backward, clockwise, counter_clockwise);
        (fs.push(t), f2)
    }
}

/// Every part in `order` can read the fields of its thrust mode that it
/// reads for the given rotation inputs (see `thrust_readable`).
pub open spec fn modes_valid(m: Map<PartHandle, Part>, order: Seq<PartHandle>, clockwise: bool, counter_clockwise: bool) -> bool {
    forall|j: int|
        0 <= j < order.len() ==> thrust_readable(
            m[#[trigger] order[j]].kind,
            m[order[j]].thrust_mode,
            clockwise,
            counter_clockwise,
        )
}

impl World {
    /// One tick of thrust for a player's ship: every part of the tree rooted
    /// at `core`, in `tree_order`, fires as the player's inputs and
    /// remaining power allow (see `thrust_no_recurse`), each charged to the
    /// player's power in turn.  The forces, part by part, are for the
    /// physics to apply.
    pub fn recursive_thrust_player(&self, core: PartHandle, player: &mut PlayerMeta) -> (r: Vec<(PartHandle, ThrustForces)>)
        requires
            self@.contains_key(core),
            is_tree(self@, self@[core]),
            modes_valid(
                self@,
                tree_order(self@, core),
                old(player).thrust_clockwise,
                old(player).thrust_counterclockwise,
            ),
        ensures
            ({
                let (fs, left) = thrust_walk(
                    self@,
                    tree_order(self@, core),
                    old(player).power,
                    old(player).thrust_forwards,
                    old(player).thrust_backwards,
                    old(player).thrust_clockwise,
                    old(player).thrust_counterclockwise,
                );
                &&& r@.map_values(|e: (PartHandle, ThrustForces)| e.0) == tree_order(self@, core)
                &&& r@.map_values(|e: (PartHandle, ThrustForces)| e.1) == fs
                &&& *final(player) == PlayerMeta { power: left, ..*old(player) }
            }),
    {
        let order = self.subtree_order(core);
        proof {
            let n = choose|n: nat| tree_within(self@, self@[core], n);
            lemma_below_in_world(self@, self@[core], n);
            assert forall|j: int| 0 <= j < order@.len() implies self@.contains_key(#[trigger] order@[j]) by {
                if j > 0 {
                    assert(order@[j] == below(self@, self@[core], n)[j - 1]);
                }
            }
        }
        let forward = player.thrust_forwards;
        let backward = player.thrust_backwards;
        let clockwise = player.thrust_clockwise;
        let counter_clockwise = player.thrust_counterclockwise;
        let ghost p0 = *player;
        let mut out: Vec<(PartHandle, ThrustForces)> = Vec::new();
        let mut i: usize = 0;
        proof {
            assert(order@.subrange(0, 0) =~= Seq::<PartHandle>::empty());
        }
        while i < order.len()
            invariant
                i <= order@.len(),
                order@ == tree_order(self@, core),
                modes_valid(self@, order@, clockwise, counter_clockwise),
                forall|j: int| 0 <= j < order@.len() ==> self@.contains_key(#[trigger] order@[j]),
                forward == p0.thrust_forwards,
                backward == p0.thrust_backwards,
                clockwise == p0.thrust_clockwise,
                counter_clockwise == p0.thrust_counterclockwise,
                ({
                    let (fs, left) = thrust_walk(self@, order@.subrange(0, i as int), p0.power, forward, backward, clockwise, counter_clockwise);
                    &&& out@.map_values(|e: (PartHandle, ThrustForces)| e.0) == order@.subrange(0, i as int)
                    &&& out@.map_values(|e: (PartHandle, ThrustForces)| e.1) == fs
                    &&& *player == PlayerMeta { power: left, ..p0 }
                }),
            decreases order@.len() - i,
        {
            let h = order[i];
            proof {
                assert(self@.contains_key(order@[i as int]));
            }
            match self.get_part(h) {
                Some(p) => {
                    proof {
                        assert(thrust_readable(p.kind, p.thrust_mode, clockwise, counter_clockwise));
                    }
                    let ghost before = out@;
                    let ghost fuel0 = player.power;
                    let forces = thrust_no_recurse(p.kind, &p.thrust_mode, &mut player.power, forward, backward, clockwise, counter_clockwise);
                    out.push((h, forces));
                    proof {
                        let sub = order@.subrange(0, i + 1);
                        assert(sub.drop_last() =~= order@.subrange(0, i as int));
                        assert(sub.last() == h);
                        assert(out@.map_values(|e: (PartHandle, ThrustForces)| e.0) =~= order@.subrange(0, i + 1));
                        assert(out@.map_values(|e: (PartHandle, ThrustForces)| e.1) =~= before.map_values(|e: (PartHandle, ThrustForces)| e.1).push(forces));
                    }
                },
                None => {
                    vstd::pervasive::unreached()
                },
            }
            i = i + 1;
        }
        proof {
            assert(order@.subrange(0, order@.len() as int) =~= order@);
        }
        out
    }
}

// ---------------------------------------------------------------- walking a ship with the places of its parts

/// The details of the part in slot `i` of a part with details `d`, for a
/// kind whose slot `i` faces `facing`.
pub open spec fn child_details(d: PartVisitDetails, facing: AttachedPartFacing) -> PartVisitDetails {
    let true_facing = AttachedPartFacing::from_turns(d.true_facing.quarter_turns() + facing.quarter_turns());
    PartVisitDetails {
        part_rel_x: (d.part_rel_x + true_facing.delta().0) as i32,
        part_rel_y: (d.part_rel_y + true_facing.delta().1) as i32,
        my_facing: facing,
        true_facing,
    }
}

/// The parts a walk from `h` visits, each with its details: `h` first,
/// then slot by slot the parts attached in slots the part's kind has,
/// each before the parts below it.  A handle that names no part is not
/// visited.  `n` bounds the depth of the walk.
pub open spec fn visits(m: Map<PartHandle, Part>, h: PartHandle, d: PartVisitDetails, n: nat) -> Seq<(PartHandle, PartVisitDetails)>
    decreases n, 5nat,
{
    if n == 0 || !m.contains_key(h) {
        seq![]
    } else {
        seq![(h, d)] + visit_slots(m, h, d, n, 4)
    }
}

pub open spec fn visit_slots(m: Map<PartHandle, Part>, h: PartHandle, d: PartVisitDetails, n: nat, k: nat) -> Seq<(PartHandle, PartVisitDetails)>
    decreases n, k,
{
    if k == 0 || n == 0 || k > 4 {
        seq![]
    } else {
        visit_slots(m, h, d, n, (k - 1) as nat) + match (child(m[h], k - 1), m[h].kind.spec_attachment_facings()@[k - 1]) {
            (Some(c), Some(f)) => visits(m, c, child_details(d, f), (n - 1) as nat),
            _ => seq![],
        }
    }
}

/// The walk every `recurse_part` of the world makes, from `h` with
/// details `d`.
pub open spec fn visit_order_of(m: Map<PartHandle, Part>, h: PartHandle, d: PartVisitDetails) -> Seq<(PartHandle, PartVisitDetails)> {
    visits(m, h, d, choose|n: nat| tree_within(m, m[h], n))
}

proof fn lemma_visits_fuel(m: Map<PartHandle, Part>, h: PartHandle, d: PartVisitDetails, n: nat, n2: nat)
    requires
        m.contains_key(h),
        tree_within(m, m[h], n),
        n <= n2,
    ensures
        visits(m, h, d, n) == visits(m, h, d, n2),
    decreases n,
{
    lemma_visit_slots_fuel(m, h, d, n, n2, 4);
}

proof fn lemma_visit_slots_fuel(m: Map<PartHandle, Part>, h: PartHandle, d: PartVisitDetails, n: nat, n2: nat, k: nat)
    requires
        m.contains_key(h),
        tree_within(m, m[h], n),
        n <= n2,
        k <= 4,
    ensures
        visit_slots(m, h, d, n, k) == visit_slots(m, h, d, n2, k),
    decreases n, k,
{
    if k > 0 {
        lemma_visit_slots_fuel(m, h, d, n, n2, (k - 1) as nat);
        match (child(m[h], k - 1), m[h].kind.spec_attachment_facings()@[k - 1]) {
            (Some(c), Some(f)) => {
                assert(m.contains_key(c) && tree_within(m, m[c], (n - 1) as nat));
                lemma_visits_fuel(m, c, child_details(d, f), (n - 1) as nat, (n2 - 1) as nat);
            },
            _ => {},
        }
    }
}

/// A place within `k` steps of reach of the edge of the `i32` grid.
proof fn lemma_child_details_fit(d: PartVisitDetails, f: AttachedPartFacing, n: nat)
    requires
        n >= 1,
        offset_fits(d.part_rel_x, d.part_rel_y, n),
    ensures
        offset_fits(child_details(d, f).part_rel_x, child_details(d, f).part_rel_y, (n - 1) as nat),
        child_details(d, f).part_rel_x == d.part_rel_x + child_details(d, f).true_facing.delta().0,
        child_details(d, f).part_rel_y == d.part_rel_y + child_details(d, f).true_facing.delta().1,
{
}

impl World {
    /// The parts `recurse_part` visits from `h` with details `d`, in order,
    /// each with its details (see `visits`); the caller does at each what
    /// the walk is for.
    pub fn visit_order(&self, h: PartHandle, d: PartVisitDetails) -> (r: Vec<(PartHandle, PartVisitDetails)>)
        requires
            self@.contains_key(h) ==> exists|n: nat|
                tree_within(self@, self@[h], n) && offset_fits(d.part_rel_x, d.part_rel_y, n),
        ensures
            r@ == visit_order_of(self@, h, d),
            !self@.contains_key(h) ==> r@.len() == 0,
    {
        if self.get_part(h).is_none() {
            return Vec::new();
        }
        let ghost n = choose|n: nat| tree_within(self@, self@[h], n) && offset_fits(d.part_rel_x, d.part_rel_y, n);
        let mut out: Vec<(PartHandle, PartVisitDetails)> = Vec::new();
        self.visit_within(h, d, &mut out, Ghost(n));
        proof {
            let n0 = choose|n: nat| tree_within(self@, self@[h], n);
            assert(tree_within(self@, self@[h], n0));
            if n <= n0 {
                lemma_visits_fuel(self@, h, d, n, n0);
            } else {
                lemma_visits_fuel(self@, h, d, n0, n);
            }
            assert(out@ =~= visits(self@, h, d, n));
        }
        out
    }

    fn visit_within(&self, h: PartHandle, d: PartVisitDetails, out: &mut Vec<(PartHandle, PartVisitDetails)>, Ghost(n): Ghost<nat>)
        requires
            self@.contains_key(h) ==> tree_within(self@, self@[h], n),
            offset_fits(d.part_rel_x, d.part_rel_y, n),
        ensures
            final(out)@ == old(out)@ + visits(self@, h, d, n),
        decreases n,
    {
        match self.get_part(h) {
            Some(part) => {
                let ghost start = out@;
                out.push((h, d));
                let facings = part.kind.attachment_facings();
                let mut i: usize = 0;
                proof {
                    assert(out@ =~= start + seq![(h, d)] + visit_slots(self@, h, d, n, 0));
                }
                while i < 4
                    invariant
                        i <= 4,
                        self@.contains_key(h),
                        *part == self@[h],
                        tree_within(self@, self@[h], n),
                        offset_fits(d.part_rel_x, d.part_rel_y, n),
                        facings@ == part.kind.spec_attachment_facings()@,
                        out@ == start + seq![(h, d)] + visit_slots(self@, h, d, n, i as nat),
                    decreases 4 - i,
                {
                    proof {
                        assert(child(*part, i as int) == child(*part, i as int));
                    }
                    match (&part.attachments[i], facings[i]) {
                        (Some(a), Some(f)) => {
                            let true_facing = f.compute_true_facing(d.true_facing);
                            let (dx, dy) = true_facing.delta_rel_part();
                            proof {
                                lemma_child_details_fit(d, f, n);
                            }
                            let cd = PartVisitDetails {
                                part_rel_x: d.part_rel_x + dx,
                                part_rel_y: d.part_rel_y + dy,
                                my_facing: f,
                                true_facing,
                            };
                            proof {
                                assert(cd == child_details(d, f));
                                assert(self@.contains_key(a.part));
                            }
                            self.visit_within(a.part, cd, out, Ghost((n - 1) as nat));
                            proof {
                                assert(out@ =~= start + seq![(h, d)] + visit_slots(self@, h, d, n, (i + 1) as nat));
                            }
                        },
                        _ => {
                            proof {
                                assert(out@ =~= start + seq![(h, d)] + visit_slots(self@, h, d, n, (i + 1) as nat));
                            }
                        },
                    }
                    i = i + 1;
                }
                proof {
                    assert(visits(self@, h, d, n) == seq![(h, d)] + visit_slots(self@, h, d, n, 4));
                    assert(out@ =~= start + visits(self@, h, d, n));
                }
            },
            None => {
                proof {
                    assert(out@ =~= out@ + visits(self@, h, d, n));
                }
            },
        }
    }
}

// ---------------------------------------------------------------- finding cargo

/// Each part below `p`, in the order of `below`, with where it hangs: its
/// parent (`parent` for the parts attached to `p` itself) and its slot
/// there.  `n` bounds the depth of the walk.
pub open spec fn links_below(m: Map<PartHandle, Part>, p: Part, parent: Option<PartHandle>, n: nat) -> Seq<
    (PartHandle, Option<PartHandle>, usize),
>
    decreases n, 5nat,
{
    if n == 0 {
        seq![]
    } else {
        links_from(m, p, parent, n, 0)
    }
}

/// The walk of `links_below` through the slots of `p` from slot `i` on.
pub open spec fn links_from(m: Map<PartHandle, Part>, p: Part, parent: Option<PartHandle>, n: nat, i: nat) -> Seq<
    (PartHandle, Option<PartHandle>, usize),
>
    decreases n, 4 - i,
{
    if i >= 4 || n == 0 {
        seq![]
    } else {
        (match child(p, i as int) {
            Some(c) => if m.contains_key(c) {
                seq![(c, parent, i as usize)] + links_below(m, m[c], Some(c), (n - 1) as nat)
            } else {
                seq![]
            },
            None => seq![],
        }) + links_from(m, p, parent, n, i + 1)
    }
}

/// The parts `links_below` walks are those of `below`, in the same order.
pub proof fn links_follow_below(m: Map<PartHandle, Part>, p: Part, parent: Option<PartHandle>, n: nat)
    ensures
        links_below(m, p, parent, n).map_values(|e: (PartHandle, Option<PartHandle>, usize)| e.0) == below(m, p, n),
    decreases n, 5nat,
{
    if n > 0 {
        lemma_links_from_handles(m, p, parent, n, 0);
        assert(below_slots(m, p, n, 0) == Seq::<PartHandle>::empty());
        assert(below_slots(m, p, n, 0) + links_from(m, p, parent, n, 0).map_values(
            |e: (PartHandle, Option<PartHandle>, usize)| e.0,
        ) =~= links_from(m, p, parent, n, 0).map_values(|e: (PartHandle, Option<PartHandle>, usize)| e.0));
    } else {
        assert(links_below(m, p, parent, n).map_values(|e: (PartHandle, Option<PartHandle>, usize)| e.0) =~= below(m, p, n));
    }
}

proof fn lemma_links_from_handles(m: Map<PartHandle, Part>, p: Part, parent: Option<PartHandle>, n: nat, k: nat)
    requires
        n >= 1,
        k <= 4,
    ensures
        below_slots(m, p, n, k) + links_from(m, p, parent, n, k).map_values(
            |e: (PartHandle, Option<PartHandle>, usize)| e.0,
        ) == below(m, p, n),
    decreases n, 4 - k,
{
    let fst = |e: (PartHandle, Option<PartHandle>, usize)| e.0;
    if k == 4 {
        assert(links_from(m, p, parent, n, k).map_values(fst) =~= Seq::<PartHandle>::empty());
        assert(below_slots(m, p, n, 4) + Seq::<PartHandle>::empty() =~= below_slots(m, p, n, 4));
    } else {
        lemma_links_from_handles(m, p, parent, n, k + 1);
        let rest = links_from(m, p, parent, n, k + 1);
        let seg_l = match child(p, k as int) {
            Some(c) => if m.contains_key(c) {
                seq![(c, parent, k as usize)] + links_below(m, m[c], Some(c), (n - 1) as nat)
            } else {
                seq![]
            },
            None => seq![],
        };
        let seg_b = match child(p, k as int) {
            Some(c) => if m.contains_key(c) {
                seq![c] + below(m, m[c], (n - 1) as nat)
            } else {
                seq![]
            },
            None => seq![],
        };
        assert(links_from(m, p, parent, n, k) == seg_l + rest);
        assert(below_slots(m, p, n, (k + 1) as nat) == below_slots(m, p, n, k) + seg_b);
        match child(p, k as int) {
            Some(c) => {
                if m.contains_key(c) {
                    links_follow_below(m, m[c], Some(c), (n - 1) as nat);
                    let sub = links_below(m, m[c], Some(c), (n - 1) as nat);
                    assert((seq![(c, parent, k as usize)] + sub).map_values(fst) =~= seq![c] + sub.map_values(fst));
                }
                assert(seg_l.map_values(fst) == seg_b) by {
                    if !m.contains_key(c) {
                        assert(seg_l.map_values(fst) =~= Seq::<PartHandle>::empty());
                    }
                }
            },
            None => {
                assert(seg_l.map_values(fst) =~= Seq::<PartHandle>::empty());
            },
        }
        assert((seg_l + rest).map_values(fst) =~= seg_l.map_values(fst) + rest.map_values(fst));
        assert(below_slots(m, p, n, k) + (seg_b + rest.map_values(fst)) =~= (below_slots(m, p, n, k) + seg_b)
            + rest.map_values(fst));
    }
}

/// Where the first cargo box of `links` hangs, if any.
pub open spec fn first_cargo(m: Map<PartHandle, Part>, links: Seq<(PartHandle, Option<PartHandle>, usize)>) -> Option<
    (Option<PartHandle>, usize),
>
    decreases links.len(),
{
    if links.len() == 0 {
        None
    } else if m[links[0].0].kind == PartKind::Cargo {
        Some((links[0].1, links[0].2))
    } else {
        first_cargo(m, links.drop_first())
    }
}

/// The search the code makes, slot by slot, depth first.
spec fn cargo_below(m: Map<PartHandle, Part>, p: Part, n: nat) -> Option<(Option<PartHandle>, usize)>
    decreases n, 5nat,
{
    if n == 0 {
        None
    } else {
        cargo_from_slot(m, p, n, 0)
    }
}

spec fn cargo_from_slot(m: Map<PartHandle, Part>, p: Part, n: nat, i: nat) -> Option<(Option<PartHandle>, usize)>
    decreases n, 4 - i,
{
    if i >= 4 || n == 0 {
        None
    } else {
        match child(p, i as int) {
            Some(c) => if m[c].kind == PartKind::Cargo {
                Some((None, i as usize))
            } else {
                match cargo_below(m, m[c], (n - 1) as nat) {
                    Some((Some(parent), slot)) => Some((Some(parent), slot)),
                    Some((None, slot)) => Some((Some(c), slot)),
                    None => cargo_from_slot(m, p, n, i + 1),
                }
            },
            None => cargo_from_slot(m, p, n, i + 1),
        }
    }
}

/// A search's answer seen from one level up: a box hanging on the part
/// searched now hangs on `parent`.
spec fn lift(r: Option<(Option<PartHandle>, usize)>, parent: Option<PartHandle>) -> Option<(Option<PartHandle>, usize)> {
    match r {
        Some((None, s)) => Some((parent, s)),
        _ => r,
    }
}

proof fn lemma_first_cargo_concat(m: Map<PartHandle, Part>, a: Seq<(PartHandle, Option<PartHandle>, usize)>, b: Seq<(PartHandle, Option<PartHandle>, usize)>)
    ensures
        first_cargo(m, a + b) == match first_cargo(m, a) {
            Some(x) => Some(x),
            None => first_cargo(m, b),
        },
    decreases a.len(),
{
    if a.len() == 0 {
        assert(a + b =~= b);
    } else {
        assert((a + b)[0] == a[0]);
        assert((a + b).drop_first() =~= a.drop_first() + b);
        lemma_first_cargo_concat(m, a.drop_first(), b);
    }
}

proof fn lemma_cargo_links(m: Map<PartHandle, Part>, p: Part, parent: Option<PartHandle>, n: nat)
    requires
        tree_within(m, p, n),
    ensures
        first_cargo(m, links_below(m, p, parent, n)) == lift(cargo_below(m, p, n), parent),
    decreases n, 5nat,
{
    lemma_cargo_links_from(m, p, parent, n, 0);
}

proof fn lemma_cargo_links_from(m: Map<PartHandle, Part>, p: Part, parent: Option<PartHandle>, n: nat, i: nat)
    requires
        tree_within(m, p, n),
    ensures
        first_cargo(m, links_from(m, p, parent, n, i)) == lift(cargo_from_slot(m, p, n, i), parent),
    decreases n, 4 - i,
{
    if i < 4 && n > 0 {
        let rest = links_from(m, p, parent, n, i + 1);
        lemma_cargo_links_from(m, p, parent, n, i + 1);
        assert(child(p, i as int) == child(p, i as int));
        match child(p, i as int) {
            Some(c) => {
                assert(m.contains_key(c) && tree_within(m, m[c], (n - 1) as nat));
                let sub = links_below(m, m[c], Some(c), (n - 1) as nat);
                let seg = seq![(c, parent, i as usize)] + sub;
                assert(links_from(m, p, parent, n, i) == seg + rest);
                assert((seg + rest)[0] == (c, parent, i as usize));
                if m[c].kind != PartKind::Cargo {
                    assert((seg + rest).drop_first() =~= sub + rest);
                    lemma_cargo_links(m, m[c], Some(c), (n - 1) as nat);
                    lemma_first_cargo_concat(m, sub, rest);
                }
            },
            None => {
                assert(links_from(m, p, parent, n, i) =~= rest);
            },
        }
    }
}

impl Part {
    /// Where the first cargo box below this part, in the order of `below`,
    /// hangs: its parent (`None` for this part) and its slot there.
    pub fn find_cargo_recursive(&self, world: &World) -> (r: Option<(Option<PartHandle>, usize)>)
        requires
            is_tree(world@, *self),
        ensures
            r == first_cargo(world@, links_below(world@, *self, None, choose|n: nat| tree_within(world@, *self, n))),
    {
        let ghost n = choose|n: nat| tree_within(world@, *self, n);
        proof {
            assert(tree_within(world@, *self, n));
            lemma_cargo_links(world@, *self, None, n);
        }
        self.find_cargo_within(world, Ghost(n))
    }

    fn find_cargo_within(&self, world: &World, Ghost(n): Ghost<nat>) -> (r: Option<(Option<PartHandle>, usize)>)
        requires
            tree_within(world@, *self, n),
        ensures
            r == cargo_below(world@, *self, n),
        decreases n,
    {
        let mut i: usize = 0;
        while i < 4
            invariant
                i <= 4,
                tree_within(world@, *self, n),
                cargo_below(world@, *self, n) == cargo_from_slot(world@, *self, n, i as nat),
            decreases 4 - i,
        {
            proof {
                assert(child(*self, i as int) == child(*self, i as int));
            }
            match &self.attachments[i] {
                Some(a) => {
                    match world.get_part(a.part) {
                        Some(part) => {
                            if part.kind == PartKind::Cargo {
                                return Some((None, i));
                            }
                            match part.find_cargo_within(world, Ghost((n - 1) as nat)) {
                                Some((Some(parent), slot)) => {
                                    return Some((Some(parent), slot));
                                },
                                Some((None, slot)) => {
                                    return Some((Some(a.part), slot));
                                },
                                None => {},
                            }
                        },
                        None => {
                            vstd::pervasive::unreached()
                        },
                    }
                },
                None => {},
            }
            i = i + 1;
        }
        None
    }
}

// ---------------------------------------------------------------- deleting a tree of parts

/// `m` without the parts named in `s`.
pub open spec fn without(m: Map<PartHandle, Part>, s: Seq<PartHandle>) -> Map<PartHandle, Part> {
    Map::new(|k: PartHandle| m.contains_key(k) && !s.contains(k), |k: PartHandle| m[k])
}

/// Taking out `a`, then `b`, takes out `a + b`.
proof fn lemma_without_twice(m: Map<PartHandle, Part>, a: Seq<PartHandle>, b: Seq<PartHandle>)
    ensures
        without(without(m, a), b) == without(m, a + b),
{
    assert forall|k: PartHandle| #[trigger] (a + b).contains(k) == (a.contains(k) || b.contains(k)) by {
        if a.contains(k) {
            let j = choose|j: int| 0 <= j < a.len() && a[j] == k;
            assert((a + b)[j] == k);
        }
        if b.contains(k) {
            let j = choose|j: int| 0 <= j < b.len() && b[j] == k;
            assert((a + b)[a.len() + j] == k);
        }
        if (a + b).contains(k) {
            let j = choose|j: int| 0 <= j < (a + b).len() && (a + b)[j] == k;
            if j < a.len() {
                assert(a[j] == k);
            } else {
                assert(b[j - a.len()] == k);
            }
        }
    }
    assert(without(without(m, a), b) =~= without(m, a + b));
}

/// `m2` holds each part named in `s` as `m1` does.
pub open spec fn agree_on(m1: Map<PartHandle, Part>, m2: Map<PartHandle, Part>, s: Seq<PartHandle>) -> bool {
    forall|j: int| 0 <= j < s.len() ==> m2.contains_key(#[trigger] s[j]) && m2[s[j]] == m1[s[j]]
}

proof fn lemma_agree_split(m1: Map<PartHandle, Part>, m2: Map<PartHandle, Part>, a: Seq<PartHandle>, b: Seq<PartHandle>)
    requires
        agree_on(m1, m2, a + b),
    ensures
        agree_on(m1, m2, a),
        agree_on(m1, m2, b),
{
    assert forall|j: int| 0 <= j < a.len() implies m2.contains_key(#[trigger] a[j]) && m2[a[j]] == m1[a[j]] by {
        assert((a + b)[j] == a[j]);
    }
    assert forall|j: int| 0 <= j < b.len() implies m2.contains_key(#[trigger] b[j]) && m2[b[j]] == m1[b[j]] by {
        assert((a + b)[a.len() + j] == b[j]);
    }
}

/// A world that holds the parts below `p` as `m1` does walks them the
/// same way.
proof fn lemma_below_agree(m1: Map<PartHandle, Part>, m2: Map<PartHandle, Part>, p: Part, n: nat)
    requires
        tree_within(m1, p, n),
        agree_on(m1, m2, below(m1, p, n)),
    ensures
        tree_within(m2, p, n),
        below(m2, p, n) == below(m1, p, n),
    decreases n,
{
    lemma_below_slots_agree(m1, m2, p, n, 4);
    assert(below(m1, p, n) == below_slots(m1, p, n, 4));
}

proof fn lemma_below_slots_agree(m1: Map<PartHandle, Part>, m2: Map<PartHandle, Part>, p: Part, n: nat, k: nat)
    requires
        tree_within(m1, p, n),
        k <= 4,
        agree_on(m1, m2, below_slots(m1, p, n, k)),
    ensures
        below_slots(m2, p, n, k) == below_slots(m1, p, n, k),
        forall|i: int| 0 <= i < k ==> match #[trigger] child(p, i) {
            Some(c) => m2.contains_key(c) && tree_within(m2, m2[c], (n - 1) as nat),
            None => true,
        },
    decreases n, k,
{
    if k > 0 {
        let prev = below_slots(m1, p, n, (k - 1) as nat);
        match child(p, k - 1) {
            Some(c) => {
                let sub = below(m1, m1[c], (n - 1) as nat);
                assert(below_slots(m1, p, n, k) == prev + (seq![c] + sub));
                lemma_agree_split(m1, m2, prev, seq![c] + sub);
                lemma_agree_split(m1, m2, seq![c], sub);
                assert(seq![c][0] == c);
                lemma_below_slots_agree(m1, m2, p, n, (k - 1) as nat);
                lemma_below_agree(m1, m2, m1[c], (n - 1) as nat);
            },
            None => {
                assert(below_slots(m1, p, n, k) =~= prev);
                lemma_below_slots_agree(m1, m2, p, n, (k - 1) as nat);
            },
        }
        assert forall|i: int| 0 <= i < k implies match #[trigger] child(p, i) {
            Some(c) => m2.contains_key(c) && tree_within(m2, m2[c], (n - 1) as nat),
            None => true,
        } by {
            if i < k - 1 {
            }
        }
    }
}

/// The walk through the first `k` slots begins the walk through all four.
proof fn lemma_below_slots_prefix(m: Map<PartHandle, Part>, p: Part, n: nat, k: nat)
    requires
        k <= 4,
    ensures
        below_slots(m, p, n, k) == below_slots(m, p, n, 4).subrange(0, below_slots(m, p, n, k).len() as int),
        below_slots(m, p, n, k).len() <= below_slots(m, p, n, 4).len(),
    decreases 4 - k,
{
    if k < 4 {
        lemma_below_slots_prefix(m, p, n, k + 1);
        let a = below_slots(m, p, n, k);
        let b = below_slots(m, p, n, k + 1);
        assert(b.subrange(0, a.len() as int) =~= a);
        assert(below_slots(m, p, n, 4).subrange(0, a.len() as int) =~= b.subrange(0, a.len() as int));
    } else {
        assert(below_slots(m, p, n, 4).subrange(0, below_slots(m, p, n, 4).len() as int) =~= below_slots(m, p, n, 4));
    }
}

/// The removal message of each part named in `order`.
pub open spec fn removal_messages(m: Map<PartHandle, Part>, order: Seq<PartHandle>) -> Seq<ToClientMsg> {
    order.map_values(|h: PartHandle| ToClientMsg::RemovePart { id: m[h].id })
}

impl World {
    /// Deletes the part `h` and every part attached below it: their removal
    /// messages are added to `removal_msgs`, in `tree_order`, and the
    /// deleted handles, in the same order, are returned for the physics to
    /// let go of.  A handle that names no part deletes nothing.
    pub fn delete_parts_recursive(&mut self, h: PartHandle, removal_msgs: &mut Vec<ToClientMsg>) -> (r: Vec<PartHandle>)
        requires
            old(self)@.contains_key(h) ==> is_tree(old(self)@, old(self)@[h]),
            old(self)@.contains_key(h) ==> tree_order(old(self)@, h).no_duplicates(),
        ensures
            old(self)@.contains_key(h) ==> {
                &&& r@ == tree_order(old(self)@, h)
                &&& final(self)@ == without(old(self)@, r@)
                &&& final(removal_msgs)@ == old(removal_msgs)@ + removal_messages(old(self)@, r@)
            },
            !old(self)@.contains_key(h) ==> r@.len() == 0 && final(self)@ == old(self)@ && final(removal_msgs)@
                == old(removal_msgs)@,
    {
        let mut removed: Vec<PartHandle> = Vec::new();
        match self.get_part(h) {
            Some(_) => {
                let ghost m = self@;
                let ghost n = choose|n: nat| tree_within(m, m[h], n);
                proof {
                    assert(tree_within(m, m[h], n));
                }
                self.delete_within(h, removal_msgs, &mut removed, Ghost(n));
                proof {
                    assert(removed@ =~= tree_order(m, h));
                }
            },
            None => {},
        }
        removed
    }

    fn delete_within(
        &mut self,
        h: PartHandle,
        removal_msgs: &mut Vec<ToClientMsg>,
        removed: &mut Vec<PartHandle>,
        Ghost(n): Ghost<nat>,
    )
        requires
            old(self)@.contains_key(h),
            tree_within(old(self)@, old(self)@[h], n),
            (seq![h] + below(old(self)@, old(self)@[h], n)).no_duplicates(),
        ensures
            final(removed)@ == old(removed)@ + (seq![h] + below(old(self)@, old(self)@[h], n)),
            final(self)@ == without(old(self)@, seq![h] + below(old(self)@, old(self)@[h], n)),
            final(removal_msgs)@ == old(removal_msgs)@ + removal_messages(
                old(self)@,
                seq![h] + below(old(self)@, old(self)@[h], n),
            ),
        decreases n,
    {
        let ghost m = self@;
        let ghost p = m[h];
        let ghost full = seq![h] + below(m, p, n);
        let ghost removed0 = removed@;
        let ghost msgs0 = removal_msgs@;
        let part = self.remove_part_unchecked(h);
        removal_msgs.push(part.remove_msg());
        removed.push(h);
        proof {
            assert(seq![h] + below_slots(m, p, n, 0) =~= seq![h]);
            assert forall|k: PartHandle| #[trigger] self@.contains_key(k) == without(m, seq![h]).contains_key(k) by {
                if k != h {
                    assert forall|j: int| 0 <= j < 1 implies seq![h][j] != k by {}
                } else {
                    assert(seq![h][0] == h);
                }
            }
            assert(self@ =~= without(m, seq![h] + below_slots(m, p, n, 0)));
            assert(removed@ =~= removed0 + (seq![h] + below_slots(m, p, n, 0)));
            assert(removal_msgs@ =~= msgs0 + removal_messages(m, seq![h] + below_slots(m, p, n, 0)));
            assert(below(m, p, n) == below_slots(m, p, n, 4));
        }
        let mut i: usize = 0;
        while i < 4
            invariant
                i <= 4,
                part == p,
                m.contains_key(h),
                p == m[h],
                tree_within(m, p, n),
                full == seq![h] + below(m, p, n),
                full.no_duplicates(),
                below(m, p, n) == below_slots(m, p, n, 4),
                self@ == without(m, seq![h] + below_slots(m, p, n, i as nat)),
                removed@ == removed0 + (seq![h] + below_slots(m, p, n, i as nat)),
                removal_msgs@ == msgs0 + removal_messages(m, seq![h] + below_slots(m, p, n, i as nat)),
            decreases 4 - i,
        {
            proof {
                assert(child(p, i as int) == child(p, i as int));
            }
            match &part.attachments[i] {
                Some(a) => {
                    let c = a.part;
                    let ghost before = seq![h] + below_slots(m, p, n, i as nat);
                    let ghost seg = seq![c] + below(m, m[c], (n - 1) as nat);
                    proof {
                        assert(child(p, i as int) == Some(c));
                        assert(m.contains_key(c) && tree_within(m, m[c], (n - 1) as nat));
                        assert(below_slots(m, p, n, (i + 1) as nat) == below_slots(m, p, n, i as nat) + seg);
                        lemma_below_slots_prefix(m, p, n, (i + 1) as nat);
                        let upto = seq![h] + below_slots(m, p, n, (i + 1) as nat);
                        assert(upto == before + seg);
                        assert(full.subrange(0, upto.len() as int) =~= upto);
                        // What is removed so far and this slot's tree share no part.
                        assert forall|j: int| 0 <= j < seg.len() implies !before.contains(#[trigger] seg[j]) by {
                            assert(upto[before.len() + j] == seg[j]);
                            assert(full[before.len() + j] == seg[j]);
                            if before.contains(seg[j]) {
                                let k = choose|k: int| 0 <= k < before.len() && before[k] == seg[j];
                                assert(full[k] == upto[k]);
                                assert(upto[k] == before[k]);
                            }
                        }
                        let cur = self@;
                        assert(agree_on(m, cur, seg)) by {
                            assert forall|j: int| 0 <= j < seg.len() implies cur.contains_key(#[trigger] seg[j]) && cur[seg[j]] == m[seg[j]] by {
                                if j == 0 {
                                    assert(seg[0] == c);
                                } else {
                                    lemma_below_in_world(m, m[c], (n - 1) as nat);
                                    assert(seg[j] == below(m, m[c], (n - 1) as nat)[j - 1]);
                                }
                            }
                        }
                        lemma_agree_split(m, cur, seq![c], below(m, m[c], (n - 1) as nat));
                        assert(seq![c][0] == c);
                        lemma_below_agree(m, cur, m[c], (n - 1) as nat);
                        assert(cur[c] == m[c]);
                        assert(seg.no_duplicates()) by {
                            assert forall|x: int, y: int| 0 <= x < y < seg.len() implies seg[x] != seg[y] by {
                                assert(upto[before.len() + x] == seg[x]);
                                assert(upto[before.len() + y] == seg[y]);
                                assert(full[before.len() + x] == seg[x]);
                                assert(full[before.len() + y] == seg[y]);
                            }
                        }
                    }
                    let ghost cur = self@;
                    let ghost r0 = removed@;
                    let ghost ms0 = removal_msgs@;
                    self.delete_within(c, removal_msgs, removed, Ghost((n - 1) as nat));
                    proof {
                        assert(seq![c] + below(cur, cur[c], (n - 1) as nat) == seg);
                        lemma_without_twice(m, before, seg);
                        assert(before + seg == seq![h] + below_slots(m, p, n, (i + 1) as nat));
                        assert(self@ =~= without(m, seq![h] + below_slots(m, p, n, (i + 1) as nat)));
                        assert(removed@ =~= removed0 + (seq![h] + below_slots(m, p, n, (i + 1) as nat)));
                        assert forall|j: int| 0 <= j < seg.len() implies #[trigger] cur[seg[j]] == m[seg[j]] by {
                            if j == 0 {
                                assert(seg[0] == c);
                            } else {
                                lemma_below_in_world(m, m[c], (n - 1) as nat);
                            }
                        }
                        assert(removal_messages(cur, seg) =~= removal_messages(m, seg));
                        assert(removal_msgs@ =~= msgs0 + removal_messages(m, seq![h] + below_slots(m, p, n, (i + 1) as nat)));
                    }
                },
                None => {
                    proof {
                        assert(below_slots(m, p, n, (i + 1) as nat) =~= below_slots(m, p, n, i as nat));
                    }
                },
            }
            i = i + 1;
        }
    }
}

// ---------------------------------------------------------------- cutting a tree of parts loose

/// The player after every part named in `s` left its ship, one after the
/// other.
pub open spec fn left_all(p: PlayerMeta, m: Map<PartHandle, Part>, s: Seq<PartHandle>) -> PlayerMeta
    decreases s.len(),
{
    if s.len() == 0 {
        p
    } else {
        left_player(left_all(p, m, s.drop_last()), m[s.last()].kind)
    }
}

/// The power the parts named in `s` add to their owner's maximum, and
/// their regeneration.
pub open spec fn storage_sum(m: Map<PartHandle, Part>, s: Seq<PartHandle>) -> (int, int)
    decreases s.len(),
{
    if s.len() == 0 {
        (0, 0)
    } else {
        let (a, b) = storage_sum(m, s.drop_last());
        (a + m[s.last()].kind.spec_power_storage(), b + m[s.last()].kind.spec_power_regen())
    }
}

/// The player can give up the parts named in `s`: its figures cover them.
pub open spec fn can_leave(p: PlayerMeta, m: Map<PartHandle, Part>, s: Seq<PartHandle>) -> bool {
    &&& p.max_power >= storage_sum(m, s).0
    &&& p.power_regen_per_5_ticks >= storage_sum(m, s).1
}

/// `q` is `p` cut loose: nothing attached, and, if `release`, owned by no
/// player.
pub open spec fn loose(p: Part, q: Part, release: bool) -> bool {
    &&& q.id == p.id
    &&& q.kind == p.kind
    &&& q.thrust_mode == p.thrust_mode
    &&& q.attachments@ == seq![None::<crate::parts::PartAttachment>, None, None, None]
    &&& q.part_of_player == (if release {
        None
    } else {
        p.part_of_player
    })
}

/// `q` is `p` with its first `i` slots emptied.
pub open spec fn slots_emptied(p: Part, q: Part, i: int) -> bool {
    &&& q.id == p.id
    &&& q.kind == p.kind
    &&& q.thrust_mode == p.thrust_mode
    &&& q.part_of_player == p.part_of_player
    &&& q.attachments@.len() == 4
    &&& forall|j: int| 0 <= j < 4 ==> #[trigger] q.attachments@[j] == (if j < i {
        None
    } else {
        p.attachments@[j]
    })
}

/// `m2` is `m` with slot `slot` of part `x` emptied, the parts named in `s`
/// cut loose, and nothing else changed.
pub open spec fn cut_one(
    m: Map<PartHandle, Part>,
    m2: Map<PartHandle, Part>,
    x: PartHandle,
    slot: int,
    s: Seq<PartHandle>,
    release: bool,
) -> bool {
    &&& m2.dom() == m.dom()
    &&& m2[x] == (Part { attachments: m2[x].attachments, ..m[x] })
    &&& m2[x].attachments@ == m[x].attachments@.update(slot, None)
    &&& forall|k: PartHandle|
        #![trigger m2[k]]
        m.contains_key(k) && k != x ==> if s.contains(k) {
            loose(m[k], m2[k], release)
        } else {
            m2[k] == m[k]
        }
}

/// `m2` is `m` with the parts named in `s` cut loose, part `x` with its
/// first `i` slots emptied, and nothing else changed.
pub open spec fn cut_below(
    m: Map<PartHandle, Part>,
    m2: Map<PartHandle, Part>,
    x: PartHandle,
    i: int,
    s: Seq<PartHandle>,
    release: bool,
) -> bool {
    &&& m2.dom() == m.dom()
    &&& slots_emptied(m[x], m2[x], i)
    &&& forall|k: PartHandle|
        #![trigger m2[k]]
        m.contains_key(k) && k != x ==> if s.contains(k) {
            loose(m[k], m2[k], release)
        } else {
            m2[k] == m[k]
        }
}

proof fn lemma_left_all_split(p: PlayerMeta, m: Map<PartHandle, Part>, a: Seq<PartHandle>, b: Seq<PartHandle>)
    ensures
        left_all(p, m, a + b) == left_all(left_all(p, m, a), m, b),
        storage_sum(m, a + b) == (storage_sum(m, a).0 + storage_sum(m, b).0, storage_sum(m, a).1 + storage_sum(m, b).1),
    decreases b.len(),
{
    if b.len() == 0 {
        assert(a + b =~= a);
    } else {
        lemma_left_all_split(p, m, a, b.drop_last());
        assert((a + b).drop_last() =~= a + b.drop_last());
        assert((a + b).last() == b.last());
    }
}

proof fn lemma_leave_one(p: PlayerMeta, m: Map<PartHandle, Part>, c: PartHandle)
    ensures
        storage_sum(m, seq![c]) == (m[c].kind.spec_power_storage() as int, m[c].kind.spec_power_regen() as int),
        left_all(p, m, seq![c]) == left_player(p, m[c].kind),
{
    let s1 = seq![c];
    assert(s1.drop_last() =~= Seq::<PartHandle>::empty());
    assert(s1.last() == c);
    assert(storage_sum(m, s1.drop_last()) == (0int, 0int));
    assert(left_all(p, m, s1.drop_last()) == p);
}

proof fn lemma_storage_sum_nonneg(m: Map<PartHandle, Part>, s: Seq<PartHandle>)
    ensures
        storage_sum(m, s).0 >= 0,
        storage_sum(m, s).1 >= 0,
    decreases s.len(),
{
    if s.len() > 0 {
        lemma_storage_sum_nonneg(m, s.drop_last());
    }
}

/// Leaving, part after part, keeps the player's id and every figure but
/// the three power figures; the maximum and regeneration drop by the sums.
proof fn lemma_left_all_figures(p: PlayerMeta, m: Map<PartHandle, Part>, s: Seq<PartHandle>)
    requires
        can_leave(p, m, s),
    ensures
        left_all(p, m, s).max_power == p.max_power - storage_sum(m, s).0,
        left_all(p, m, s).power_regen_per_5_ticks == p.power_regen_per_5_ticks - storage_sum(m, s).1,
        left_all(p, m, s) == (PlayerMeta {
            max_power: left_all(p, m, s).max_power,
            power_regen_per_5_ticks: left_all(p, m, s).power_regen_per_5_ticks,
            power: left_all(p, m, s).power,
            ..p
        }),
    decreases s.len(),
{
    if s.len() > 0 {
        lemma_storage_sum_nonneg(m, s.drop_last());
        lemma_left_all_figures(p, m, s.drop_last());
    }
}

/// Leaving, part after part, keeps the player's id and the parts that
/// touch a planet.
proof fn lemma_left_all_keeps(p: PlayerMeta, m: Map<PartHandle, Part>, s: Seq<PartHandle>)
    ensures
        left_all(p, m, s).id == p.id,
        left_all(p, m, s).parts_touching_planet == p.parts_touching_planet,
    decreases s.len(),
{
    if s.len() > 0 {
        lemma_left_all_keeps(p, m, s.drop_last());
    }
}

/// Same slots, same walk.
proof fn lemma_same_children(m: Map<PartHandle, Part>, p: Part, q: Part, n: nat)
    requires
        p.attachments == q.attachments,
    ensures
        tree_within(m, p, n) == tree_within(m, q, n),
        below(m, p, n) == below(m, q, n),
{
    assert forall|i: int| 0 <= i < 4 implies #[trigger] child(p, i) == child(q, i) by {}
    if tree_within(m, p, n) {
        assert forall|i: int| 0 <= i < 4 implies match #[trigger] child(q, i) {
            Some(c) => m.contains_key(c) && tree_within(m, m[c], (n - 1) as nat),
            None => true,
        } by {
            assert(child(p, i) == child(q, i));
        }
    }
    if tree_within(m, q, n) {
        assert forall|i: int| 0 <= i < 4 implies match #[trigger] child(p, i) {
            Some(c) => m.contains_key(c) && tree_within(m, m[c], (n - 1) as nat),
            None => true,
        } by {
            assert(child(p, i) == child(q, i));
        }
    }
    lemma_same_children_slots(m, p, q, n, 4);
}

proof fn lemma_same_children_slots(m: Map<PartHandle, Part>, p: Part, q: Part, n: nat, k: nat)
    requires
        p.attachments == q.attachments,
    ensures
        below_slots(m, p, n, k) == below_slots(m, q, n, k),
    decreases k,
{
    if k > 0 {
        lemma_same_children_slots(m, p, q, n, (k - 1) as nat);
    }
}

/// A part is named in `a + b` exactly when it is named in `a` or in `b`.
proof fn lemma_concat_contains(a: Seq<PartHandle>, b: Seq<PartHandle>, k: PartHandle)
    ensures
        (a + b).contains(k) == (a.contains(k) || b.contains(k)),
{
    if a.contains(k) {
        let j = choose|j: int| 0 <= j < a.len() && a[j] == k;
        assert((a + b)[j] == k);
    }
    if b.contains(k) {
        let j = choose|j: int| 0 <= j < b.len() && b[j] == k;
        assert((a + b)[a.len() + j] == k);
    }
    if (a + b).contains(k) {
        let j = choose|j: int| 0 <= j < (a + b).len() && (a + b)[j] == k;
        if j < a.len() {
            assert(a[j] == k);
        } else {
            assert(b[j - a.len()] == k);
        }
    }
}

/// The two halves of a sequence without repeats have none, and share none.
proof fn lemma_no_dup_split(a: Seq<PartHandle>, b: Seq<PartHandle>)
    requires
        (a + b).no_duplicates(),
    ensures
        a.no_duplicates(),
        b.no_duplicates(),
        forall|k: PartHandle| a.contains(k) ==> !b.contains(k),
{
    assert forall|x: int, y: int| 0 <= x < y < a.len() implies a[x] != a[y] by {
        assert((a + b)[x] == a[x] && (a + b)[y] == a[y]);
    }
    assert forall|x: int, y: int| 0 <= x < y < b.len() implies b[x] != b[y] by {
        assert((a + b)[a.len() + x] == b[x] && (a + b)[a.len() + y] == b[y]);
    }
    assert forall|k: PartHandle| a.contains(k) implies !b.contains(k) by {
        let x = choose|x: int| 0 <= x < a.len() && a[x] == k;
        if b.contains(k) {
            let y = choose|y: int| 0 <= y < b.len() && b[y] == k;
            assert((a + b)[x] == (a + b)[a.len() + y]);
        }
    }
}

/// The tree below slot `i` of `x` sits in the walk below `x` between the
/// slots before it and the slots after it.
proof fn lemma_slot_segment(m: Map<PartHandle, Part>, p: Part, n: nat, i: int, c: PartHandle)
    requires
        tree_within(m, p, n),
        0 <= i < 4,
        child(p, i) == Some(c),
    ensures
        m.contains_key(c),
        tree_within(m, m[c], (n - 1) as nat),
        below_slots(m, p, n, (i + 1) as nat) == below_slots(m, p, n, i as nat) + (seq![c] + below(m, m[c], (n - 1) as nat)),
        below(m, p, n) == below_slots(m, p, n, (i + 1) as nat) + below(m, p, n).subrange(
            below_slots(m, p, n, (i + 1) as nat).len() as int,
            below(m, p, n).len() as int,
        ),
{
    lemma_below_slots_prefix(m, p, n, (i + 1) as nat);
    assert(below(m, p, n) == below_slots(m, p, n, 4));
    let a = below_slots(m, p, n, (i + 1) as nat);
    let all = below(m, p, n);
    assert(all =~= a + all.subrange(a.len() as int, all.len() as int));
}

/// Worlds that hold the parts named in `s` alike charge them alike.
proof fn lemma_leave_agree(m1: Map<PartHandle, Part>, m2: Map<PartHandle, Part>, s: Seq<PartHandle>, p: PlayerMeta)
    requires
        agree_on(m1, m2, s),
    ensures
        storage_sum(m1, s) == storage_sum(m2, s),
        left_all(p, m1, s) == left_all(p, m2, s),
    decreases s.len(),
{
    if s.len() > 0 {
        lemma_agree_split(m1, m2, s.drop_last(), seq![s.last()]);
        assert(s.drop_last() + seq![s.last()] =~= s);
        lemma_leave_agree(m1, m2, s.drop_last(), p);
        assert(seq![s.last()][0] == s.last());
    }
}

impl World {
    /// Cuts loose everything attached below part `x`: all its slots are
    /// emptied, and each part below it keeps nothing attached, is added to
    /// `parts_affected` (in the order of the walk), and, when a player is
    /// given, leaves that player's ship.
    fn detach_all_within(
        &mut self,
        x: PartHandle,
        player: &mut Option<PlayerMeta>,
        parts_affected: &mut Vec<PartHandle>,
        Ghost(n): Ghost<nat>,
    )
        requires
            old(self)@.contains_key(x),
            tree_within(old(self)@, old(self)@[x], n),
            (seq![x] + below(old(self)@, old(self)@[x], n)).no_duplicates(),
            *old(player) matches Some(p) ==> can_leave(p, old(self)@, below(old(self)@, old(self)@[x], n)),
        ensures
            cut_below(old(self)@, final(self)@, x, 4, below(old(self)@, old(self)@[x], n), *old(player) is Some),
            final(parts_affected)@ == old(parts_affected)@ + below(old(self)@, old(self)@[x], n),
            *final(player) == match *old(player) {
                Some(p) => Some(left_all(p, old(self)@, below(old(self)@, old(self)@[x], n))),
                None => None,
            },
        decreases n,
    {
        let ghost m = self@;
        let ghost px = m[x];
        let ghost p0 = *player;
        let ghost rel = p0 is Some;
        let ghost a0 = parts_affected@;
        let ghost full = seq![x] + below(m, px, n);
        proof {
            assert(below(m, px, n) == below_slots(m, px, n, 4));
            assert(below_slots(m, px, n, 0) =~= Seq::<PartHandle>::empty());
            assert(parts_affected@ =~= a0 + below_slots(m, px, n, 0));
            assert(slots_emptied(px, self@[x], 0));
            assert forall|k: PartHandle| #![trigger self@[k]] m.contains_key(k) && k != x implies if below_slots(m, px, n, 0).contains(k) {
                loose(m[k], self@[k], rel)
            } else {
                self@[k] == m[k]
            } by {}
            match p0 {
                Some(p) => {
                    assert(left_all(p, m, below_slots(m, px, n, 0)) == p);
                },
                None => {},
            }
        }
        let mut i: usize = 0;
        while i < 4
            invariant
                i <= 4,
                m.contains_key(x),
                px == m[x],
                tree_within(m, px, n),
                full == seq![x] + below(m, px, n),
                full.no_duplicates(),
                below(m, px, n) == below_slots(m, px, n, 4),
                rel == p0 is Some,
                p0 matches Some(p) ==> can_leave(p, m, below(m, px, n)),
                cut_below(m, self@, x, i as int, below_slots(m, px, n, i as nat), rel),
                parts_affected@ == a0 + below_slots(m, px, n, i as nat),
                *player == match p0 {
                    Some(p) => Some(left_all(p, m, below_slots(m, px, n, i as nat))),
                    None => None,
                },
            decreases 4 - i,
        {
            let ghost cur = self@;
            let ghost bs = below_slots(m, px, n, i as nat);
            proof {
                assert(cur[x].attachments@[i as int] == px.attachments@[i as int]);
            }
            let slot = match self.get_part(x) {
                Some(part) => part.attachments[i],
                None => vstd::pervasive::unreached(),
            };
            match slot {
                Some(a) => {
                    let c = a.part;
                    let ghost seg = seq![c] + below(m, m[c], (n - 1) as nat);
                    let ghost rest = below(m, m[c], (n - 1) as nat);
                    let ghost tail = below(m, px, n).subrange(
                        below_slots(m, px, n, (i + 1) as nat).len() as int,
                        below(m, px, n).len() as int,
                    );
                    proof {
                        assert(child(px, i as int) == Some(c));
                        lemma_slot_segment(m, px, n, i as int, c);
                        assert(full =~= seq![x] + (bs + (seg + tail)));
                        lemma_no_dup_split(seq![x], bs + (seg + tail));
                        lemma_no_dup_split(bs, seg + tail);
                        lemma_no_dup_split(seg, tail);
                        lemma_no_dup_split(seq![c], rest);
                        assert(seq![x].contains(x)) by {
                            assert(seq![x][0] == x);
                        }
                        assert(seq![c].contains(c)) by {
                            assert(seq![c][0] == c);
                        }
                        lemma_concat_contains(bs, seg + tail, x);
                        lemma_concat_contains(seg, tail, x);
                        lemma_concat_contains(seq![c], rest, x);
                        lemma_concat_contains(seg, tail, c);
                        assert(seg.contains(c)) by {
                            assert(seg[0] == c);
                        }
                    }
                    // Empty the slot.
                    match self.get_part_mut(x) {
                        Some(part) => {
                            let _ = part.detach_part_player_agnostic(i);
                        },
                        None => vstd::pervasive::unreached(),
                    }
                    let ghost cur1 = self@;
                    parts_affected.push(c);
                    // The part leaves the player's ship.
                    match player {
                        Some(pl) => {
                            proof {
                                let p = p0->Some_0;
                                lemma_left_all_split(p, m, bs, seg);
                                lemma_left_all_split(p, m, bs + seg, tail);
                                assert(below(m, px, n) =~= (bs + seg) + tail);
                                lemma_left_all_split(p, m, seq![c], rest);
                                lemma_storage_sum_nonneg(m, rest);
                                lemma_storage_sum_nonneg(m, tail);
                                lemma_storage_sum_nonneg(m, bs);
                                lemma_storage_sum_nonneg(m, seg);
                                lemma_leave_one(p, m, c);
                                assert(can_leave(p, m, bs));
                                lemma_left_all_figures(p, m, bs);
                                assert(cur1[c] == m[c]);
                            }
                            match self.get_part_mut(c) {
                                Some(pc) => {
                                    pc.remove_from(pl);
                                },
                                None => vstd::pervasive::unreached(),
                            }
                        },
                        None => {},
                    }
                    let ghost cur2 = self@;
                    let ghost pl2 = *player;
                    proof {
                        assert(cur2[c].attachments == m[c].attachments);
                        assert(agree_on(m, cur2, rest)) by {
                            lemma_below_in_world(m, m[c], (n - 1) as nat);
                            assert forall|j: int| 0 <= j < rest.len() implies cur2.contains_key(#[trigger] rest[j]) && cur2[rest[j]] == m[rest[j]] by {
                                let k = rest[j];
                                assert(rest.contains(k));
                                lemma_concat_contains(seq![c], rest, k);
                                lemma_concat_contains(seg, tail, k);
                                assert(k != x);
                                assert(k != c);
                                assert(!bs.contains(k));
                                assert(cur[k] == m[k]);
                            }
                        }
                        lemma_below_agree(m, cur2, m[c], (n - 1) as nat);
                        lemma_same_children(cur2, m[c], cur2[c], (n - 1) as nat);
                        assert(seq![c] + below(cur2, cur2[c], (n - 1) as nat) == seg);
                        match p0 {
                            Some(p) => {
                                lemma_leave_agree(m, cur2, rest, pl2->Some_0);
                            },
                            None => {},
                        }
                    }
                    proof {
                        assert(below(cur2, cur2[c], (n - 1) as nat) == rest);
                        assert forall|k: PartHandle| k != x && k != c && cur.contains_key(k) implies #[trigger] cur2[k] == cur[k] by {}
                        assert(cur2[c] == (if rel { Part { part_of_player: None, ..m[c] } } else { m[c] }));
                    }
                    self.detach_all_within(c, player, parts_affected, Ghost((n - 1) as nat));
                    proof {
                        let cur3 = self@;
                        let bs1 = below_slots(m, px, n, (i + 1) as nat);
                        assert(cut_below(cur2, cur3, c, 4, rest, rel));
                        assert(cur3[c].attachments@ =~= seq![None::<crate::parts::PartAttachment>, None, None, None]) by {
                            assert(slots_emptied(cur2[c], cur3[c], 4));
                        }
                        assert(bs1 == bs + seg);
                        assert(parts_affected@ =~= a0 + bs1);
                        assert(cur3.dom() =~= m.dom());
                        assert(cur3[x] == cur1[x]);
                        assert(slots_emptied(px, cur3[x], i + 1));
                        assert forall|k: PartHandle| #![trigger cur3[k]] m.contains_key(k) && k != x implies if bs1.contains(k) {
                            loose(m[k], cur3[k], rel)
                        } else {
                            cur3[k] == m[k]
                        } by {
                            lemma_concat_contains(bs, seg, k);
                            lemma_concat_contains(seq![c], rest, k);
                            lemma_concat_contains(seg, tail, k);
                            if bs.contains(k) {
                                assert(!seg.contains(k));
                                assert(!rest.contains(k));
                                assert(k != c) by {
                                    assert(seq![c].contains(c)) by {
                                        assert(seq![c][0] == c);
                                    }
                                }
                                assert(cur3[k] == cur2[k]);
                                assert(cur2[k] == cur[k]);
                                assert(loose(m[k], cur[k], rel));
                            } else if k == c {
                                assert(loose(m[c], cur3[c], rel));
                            } else if rest.contains(k) {
                                assert(cur2[k] == cur[k]);
                                assert(cur[k] == m[k]);
                                assert(loose(cur2[k], cur3[k], rel));
                            } else {
                                assert(!seg.contains(k));
                                assert(cur3[k] == cur2[k]);
                                assert(cur2[k] == cur[k]);
                                assert(cur[k] == m[k]);
                            }
                        }
                        match p0 {
                            Some(p) => {
                                lemma_left_all_split(p, m, bs, seg);
                                lemma_left_all_split(left_all(p, m, bs), m, seq![c], rest);
                                lemma_leave_one(left_all(p, m, bs), m, c);
                                assert(pl2 == Some(left_player(left_all(p, m, bs), m[c].kind)));
                            },
                            None => {},
                        }
                    }
                },
                None => {
                    proof {
                        assert(child(px, i as int) is None);
                        assert(below_slots(m, px, n, (i + 1) as nat) =~= bs);
                        assert(slots_emptied(px, cur[x], i + 1));
                    }
                },
            }
            i = i + 1;
        }
    }

    /// Cuts loose part `parent`'s attachment in `slot` and everything below
    /// it: the slot is emptied, and each of those parts keeps nothing
    /// attached, is added to `parts_affected` (in `tree_order`), and, when
    /// a player is given, leaves that player's ship (see `left_player`).
    pub fn recursive_detach_one(
        &mut self,
        parent: PartHandle,
        attachment_slot: usize,
        player: &mut Option<PlayerMeta>,
        parts_affected: &mut Vec<PartHandle>,
    )
        requires
            attachment_slot < 4,
            old(self)@.contains_key(parent),
            is_tree(old(self)@, old(self)@[parent]),
            tree_order(old(self)@, parent).no_duplicates(),
            ({
                let c = child(old(self)@[parent], attachment_slot as int);
                match (c, *old(player)) {
                    (Some(c), Some(p)) => can_leave(p, old(self)@, tree_order(old(self)@, c)),
                    _ => true,
                }
            }),
        ensures
            match child(old(self)@[parent], attachment_slot as int) {
                None => final(self)@ == old(self)@ && *final(player) == *old(player) && final(parts_affected)@ == old(parts_affected)@,
                Some(c) => {
                    let s = tree_order(old(self)@, c);
                    &&& final(parts_affected)@ == old(parts_affected)@ + s
                    &&& *final(player) == match *old(player) {
                        Some(p) => Some(left_all(p, old(self)@, s)),
                        None => None,
                    }
                    &&& cut_one(old(self)@, final(self)@, parent, attachment_slot as int, s, *old(player) is Some)
                },
            },
    {
        let ghost m = self@;
        let ghost p0 = *player;
        let ghost a0 = parts_affected@;
        let ghost rel = p0 is Some;
        let slot = match self.get_part(parent) {
            Some(part) => part.attachments[attachment_slot],
            None => vstd::pervasive::unreached(),
        };
        let c = match slot {
            Some(a) => a.part,
            None => {
                return;
            },
        };
        let ghost n = choose|n: nat| tree_within(m, m[parent], n);
        let ghost pp = m[parent];
        let ghost seg = seq![c] + below(m, m[c], (n - 1) as nat);
        let ghost rest = below(m, m[c], (n - 1) as nat);
        proof {
            assert(tree_within(m, pp, n));
            assert(child(pp, attachment_slot as int) == Some(c));
            lemma_slot_segment(m, pp, n, attachment_slot as int, c);
            let bs = below_slots(m, pp, n, attachment_slot as nat);
            let tail = below(m, pp, n).subrange(
                below_slots(m, pp, n, (attachment_slot + 1) as nat).len() as int,
                below(m, pp, n).len() as int,
            );
            assert(tree_order(m, parent) =~= seq![parent] + (bs + (seg + tail)));
            lemma_no_dup_split(seq![parent], bs + (seg + tail));
            lemma_no_dup_split(bs, seg + tail);
            lemma_no_dup_split(seg, tail);
            lemma_no_dup_split(seq![c], rest);
            assert(seq![c].contains(c)) by {
                assert(seq![c][0] == c);
            }
            assert(seq![parent].contains(parent)) by {
                assert(seq![parent][0] == parent);
            }
            lemma_concat_contains(bs, seg + tail, parent);
            lemma_concat_contains(seg, tail, parent);
            lemma_concat_contains(seq![c], rest, parent);
            let nc = choose|k: nat| tree_within(m, m[c], k);
            assert(tree_within(m, m[c], nc));
            if nc <= (n - 1) as nat {
                lemma_below_fuel(m, m[c], nc, (n - 1) as nat);
            } else {
                lemma_below_fuel(m, m[c], (n - 1) as nat, nc);
            }
            assert(tree_order(m, c) == seg);
        }
        match self.get_part_mut(parent) {
            Some(part) => {
                let _ = part.detach_part_player_agnostic(attachment_slot);
            },
            None => vstd::pervasive::unreached(),
        }
        let ghost cur1 = self@;
        parts_affected.push(c);
        match player {
            Some(pl) => {
                proof {
                    let p = p0->Some_0;
                    lemma_left_all_split(p, m, seq![c], rest);
                    lemma_storage_sum_nonneg(m, rest);
                    lemma_leave_one(p, m, c);
                    assert(cur1[c] == m[c]);
                }
                match self.get_part_mut(c) {
                    Some(pc) => {
                        pc.remove_from(pl);
                    },
                    None => vstd::pervasive::unreached(),
                }
            },
            None => {},
        }
        let ghost cur2 = self@;
        let ghost pl2 = *player;
        proof {
            assert(agree_on(m, cur2, rest)) by {
                assert forall|j: int| 0 <= j < rest.len() implies cur2.contains_key(#[trigger] rest[j]) && cur2[rest[j]] == m[rest[j]] by {
                    let k = rest[j];
                    assert(rest.contains(k));
                    lemma_concat_contains(seq![c], rest, k);
                    lemma_below_in_world(m, m[c], (n - 1) as nat);
                    assert(seg.contains(k));
                    assert(k != parent);
                    assert(k != c);
                }
            }
            lemma_below_agree(m, cur2, m[c], (n - 1) as nat);
            lemma_same_children(cur2, m[c], cur2[c], (n - 1) as nat);
            assert(seq![c] + below(cur2, cur2[c], (n - 1) as nat) == seg);
            match p0 {
                Some(p) => {
                    lemma_leave_agree(m, cur2, rest, pl2->Some_0);
                },
                None => {},
            }
        }
        self.detach_all_within(c, player, parts_affected, Ghost((n - 1) as nat));
        proof {
            let cur3 = self@;
            assert(parts_affected@ =~= a0 + seg);
            assert(cur3.dom() =~= m.dom());
            assert(below(cur2, cur2[c], (n - 1) as nat) == rest);
            assert(cur3[parent] == cur1[parent]);
            assert(cur3[c].attachments@ =~= seq![None::<crate::parts::PartAttachment>, None, None, None]) by {
                assert(slots_emptied(cur2[c], cur3[c], 4));
            }
            assert forall|k: PartHandle| #![trigger cur3[k]] m.contains_key(k) && k != parent implies if seg.contains(k) {
                loose(m[k], cur3[k], rel)
            } else {
                cur3[k] == m[k]
            } by {
                lemma_concat_contains(seq![c], rest, k);
                if k == c {
                } else if rest.contains(k) {
                } else {
                    assert(cur3[k] == m[k]);
                }
            }
            match p0 {
                Some(p) => {
                    lemma_left_all_split(p, m, seq![c], rest);
                    lemma_leave_one(p, m, c);
                    assert(pl2 == Some(left_player(p, m[c].kind)));
                },
                None => {},
            }
            assert(cut_one(m, cur3, parent, attachment_slot as int, seg, rel));
        }
    }
}

impl World {
    /// Cuts loose everything attached to part `parent`: each of its slots
    /// is emptied as by `recursive_detach_one`.  A handle that names no
    /// part changes nothing.
    pub fn recursive_detach_all(
        &mut self,
        parent: PartHandle,
        player: &mut Option<PlayerMeta>,
        parts_affected: &mut Vec<PartHandle>,
    )
        requires
            old(self)@.contains_key(parent) ==> is_tree(old(self)@, old(self)@[parent]),
            old(self)@.contains_key(parent) ==> tree_order(old(self)@, parent).no_duplicates(),
            old(self)@.contains_key(parent) ==> (*old(player) matches Some(p) ==> can_leave(
                p,
                old(self)@,
                below_of(old(self)@, parent),
            )),
        ensures
            old(self)@.contains_key(parent) ==> {
                let s = below_of(old(self)@, parent);
                &&& cut_below(old(self)@, final(self)@, parent, 4, s, *old(player) is Some)
                &&& final(parts_affected)@ == old(parts_affected)@ + s
                &&& *final(player) == match *old(player) {
                    Some(p) => Some(left_all(p, old(self)@, s)),
                    None => None,
                }
            },
            !old(self)@.contains_key(parent) ==> final(self)@ == old(self)@ && *final(player) == *old(player)
                && final(parts_affected)@ == old(parts_affected)@,
    {
        match self.get_part(parent) {
            Some(_) => {
                let ghost m = self@;
                let ghost n = choose|n: nat| tree_within(m, m[parent], n);
                proof {
                    assert(tree_within(m, m[parent], n));
                }
                self.detach_all_within(parent, player, parts_affected, Ghost(n));
            },
            None => {},
        }
    }
}

/// Thrust never spends power the ship does not have: the power left after
/// a tick is at most the power before it.
pub proof fn thrust_never_overspends(
    m: Map<PartHandle, Part>,
    order: Seq<PartHandle>,
    fuel: u32,
    forward: bool,
    backward: bool,
    clockwise: bool,
    counter_clockwise: bool,
)
    ensures
        thrust_walk(m, order, fuel, forward, backward, clockwise, counter_clockwise).1 <= fuel,
        thrust_walk(m, order, fuel, forward, backward, clockwise, counter_clockwise).0.len() == order.len(),
    decreases order.len(),
{
    if order.len() > 0 {
        thrust_never_overspends(m, order.drop_last(), fuel, forward, backward, clockwise, counter_clockwise);
    }
}


// ---------------------------------------------------------------- checking a tree of parts

/// The depth past which `check_tree` refuses a ship: the deepest ship
/// whose grid places, three cells per part, fit in an `i32`.
pub const TREE_CHECK_DEPTH: u32 = 0x2aaa_aaaa;

fn contains_handle(v: &Vec<PartHandle>, h: PartHandle) -> (r: bool)
    ensures
        r == v@.contains(h),
{
    let mut i: usize = 0;
    while i < v.len()
        invariant
            i <= v@.len(),
            forall|j: int| 0 <= j < i ==> v@[j] != h,
        decreases v@.len() - i,
    {
        if v[i] == h {
            return true;
        }
        i = i + 1;
    }
    false
}

impl World {
    /// Walks below `p` as `walk_below_within` does, adding to `seen`, and
    /// fails as soon as an attached part is missing, a part comes a second
    /// time, or the walk goes deeper than `fuel`.
    fn check_within(&self, p: &Part, seen: &mut Vec<PartHandle>, fuel: u32) -> (r: bool)
        requires
            old(seen)@.no_duplicates(),
        ensures
            r ==> tree_within(self@, *p, fuel as nat),
            r ==> final(seen)@ == old(seen)@ + below(self@, *p, fuel as nat),
            r ==> final(seen)@.no_duplicates(),
            tree_within(self@, *p, fuel as nat) && (old(seen)@ + below(self@, *p, fuel as nat)).no_duplicates()
                ==> r,
        decreases fuel,
    {
        if fuel == 0 {
            return false;
        }
        let ghost m = self@;
        let ghost n = fuel as nat;
        let ghost start = seen@;
        let ghost whole = start + below(m, *p, n);
        let mut i: usize = 0;
        proof {
            assert(start + below_slots(m, *p, n, 0) =~= start);
        }
        while i < 4
            invariant
                i <= 4,
                fuel >= 1,
                n == fuel as nat,
                m == self@,
                start == old(seen)@,
                whole == start + below(m, *p, n),
                seen@ == start + below_slots(m, *p, n, i as nat),
                seen@.no_duplicates(),
                forall|j: int|
                    0 <= j < i ==> match #[trigger] child(*p, j) {
                        Some(c) => m.contains_key(c) && tree_within(m, m[c], (n - 1) as nat),
                        None => true,
                    },
            decreases 4 - i,
        {
            proof {
                assert(child(*p, i as int) == child(*p, i as int));
            }
            match &p.attachments[i] {
                Some(a) => {
                    let h = a.part;
                    let ghost seg = seq![h] + below(m, m[h], (n - 1) as nat);
                    let ghost a0 = below_slots(m, *p, n, i as nat);
                    let ghost tail = below(m, *p, n).subrange(
                        below_slots(m, *p, n, (i + 1) as nat).len() as int,
                        below(m, *p, n).len() as int,
                    );
                    if contains_handle(seen, h) {
                        proof {
                            if tree_within(m, *p, n) && whole.no_duplicates() {
                                lemma_slot_segment(m, *p, n, i as int, h);
                                assert(whole =~= (start + a0) + (seg + tail));
                                lemma_no_dup_split(start + a0, seg + tail);
                                assert((seg + tail)[0] == h);
                                assert((seg + tail).contains(h));
                                assert((start + a0).contains(h));
                            }
                        }
                        return false;
                    }
                    match self.get_part(h) {
                        Some(c) => {
                            let ghost before = seen@;
                            seen.push(h);
                            proof {
                                assert forall|x: int, y: int| 0 <= x < y < seen@.len() implies seen@[x] != seen@[y] by {
                                    if y == seen@.len() - 1 {
                                        assert(before[x] == seen@[x]);
                                        assert(before.contains(before[x]));
                                    } else {
                                        assert(before[x] == seen@[x] && before[y] == seen@[y]);
                                    }
                                }
                            }
                            let ok = self.check_within(c, seen, fuel - 1);
                            if !ok {
                                proof {
                                    if tree_within(m, *p, n) && whole.no_duplicates() {
                                        lemma_slot_segment(m, *p, n, i as int, h);
                                        assert(whole =~= ((start + a0).push(h) + below(m, m[h], (n - 1) as nat)) + tail);
                                        lemma_no_dup_split(
                                            (start + a0).push(h) + below(m, m[h], (n - 1) as nat),
                                            tail,
                                        );
                                        assert(before.push(h) == (start + a0).push(h));
                                    }
                                }
                                return false;
                            }
                            proof {
                                assert(seen@ =~= start + below_slots(m, *p, n, (i + 1) as nat));
                            }
                        },
                        None => {
                            return false;
                        },
                    }
                },
                None => {
                    proof {
                        assert(seen@ =~= start + below_slots(m, *p, n, (i + 1) as nat));
                    }
                },
            }
            i = i + 1;
        }
        proof {
            assert(below(m, *p, n) == below_slots(m, *p, n, 4));
        }
        true
    }

    /// Whether `h` names a part whose tree is sound: every part attached
    /// below it is in the world, no part comes twice, and no chain of
    /// attachments is longer than `TREE_CHECK_DEPTH`.
    pub fn check_tree(&self, h: PartHandle) -> (r: bool)
        ensures
            r == (self@.contains_key(h) && tree_within(self@, self@[h], TREE_CHECK_DEPTH as nat)
                && tree_order(self@, h).no_duplicates()),
    {
        match self.get_part(h) {
            Some(p) => {
                let mut seen: Vec<PartHandle> = Vec::new();
                seen.push(h);
                proof {
                    assert(seen@ =~= seq![h]);
                }
                let ok = self.check_within(p, &mut seen, TREE_CHECK_DEPTH);
                proof {
                    let m = self@;
                    let d = TREE_CHECK_DEPTH as nat;
                    if tree_within(m, m[h], d) {
                        let n = choose|n: nat| tree_within(m, m[h], n);
                        assert(tree_within(m, m[h], n));
                        if n <= d {
                            lemma_below_fuel(m, m[h], n, d);
                        } else {
                            lemma_below_fuel(m, m[h], d, n);
                        }
                        assert(tree_order(m, h) == seq![h] + below(m, m[h], d));
                    }
                }
                ok
            },
            None => false,
        }
    }
}


/// Each first part of `s` adds no more than the whole of it.
proof fn lemma_storage_sum_prefix(m: Map<PartHandle, Part>, s: Seq<PartHandle>, k: int)
    requires
        0 <= k <= s.len(),
    ensures
        storage_sum(m, s.take(k)).0 <= storage_sum(m, s).0,
        storage_sum(m, s.take(k)).1 <= storage_sum(m, s).1,
    decreases s.len(),
{
    if k < s.len() {
        lemma_storage_sum_prefix(m, s.drop_last(), k);
        assert(s.drop_last().take(k) =~= s.take(k));
    } else {
        assert(s.take(k) =~= s);
    }
}

impl World {
    /// Whether player `p` can give up the parts named in `s`: their power
    /// and regeneration are no more than the player's (see `can_leave`).
    pub fn covers(&self, p: &PlayerMeta, s: &Vec<PartHandle>) -> (r: bool)
        requires
            forall|j: int| 0 <= j < s@.len() ==> self@.contains_key(#[trigger] s@[j]),
        ensures
            r == can_leave(*p, self@, s@),
    {
        let ghost m = self@;
        let mut a: u64 = 0;
        let mut b: u64 = 0;
        let mut i: usize = 0;
        proof {
            assert(s@.take(0) =~= Seq::<PartHandle>::empty());
        }
        while i < s.len()
            invariant
                i <= s@.len(),
                m == self@,
                forall|j: int| 0 <= j < s@.len() ==> m.contains_key(#[trigger] s@[j]),
                a == storage_sum(m, s@.take(i as int)).0,
                b == storage_sum(m, s@.take(i as int)).1,
                a <= p.max_power,
                b <= p.power_regen_per_5_ticks,
            decreases s@.len() - i,
        {
            let h = s[i];
            proof {
                assert(m.contains_key(s@[i as int]));
            }
            let kind = match self.get_part(h) {
                Some(part) => part.kind,
                None => vstd::pervasive::unreached(),
            };
            a = a + kind.power_storage() as u64;
            b = b + kind.power_regen_per_5_ticks() as u64;
            proof {
                let t = s@.take(i + 1);
                assert(t.drop_last() =~= s@.take(i as int));
                assert(t.last() == h);
            }
            if a > p.max_power as u64 || b > p.power_regen_per_5_ticks as u64 {
                proof {
                    lemma_storage_sum_prefix(m, s@, i + 1);
                }
                return false;
            }
            i = i + 1;
        }
        proof {
            assert(s@.take(s@.len() as int) =~= s@);
        }
        true
    }
}


// ---------------------------------------------------------------- cutting broken attachments

/// Whether a broken attachment (slot `slot` of part `h`) may be cut: the
/// slot exists, the part's tree is sound (see `check_tree`), and a player
/// who would lose the parts below can give them up.
pub open spec fn detach_allowed(m: Map<PartHandle, Part>, p: Option<PlayerMeta>, h: PartHandle, slot: usize) -> bool {
    &&& slot < 4
    &&& m.contains_key(h)
    &&& tree_within(m, m[h], TREE_CHECK_DEPTH as nat)
    &&& tree_order(m, h).no_duplicates()
    &&& match (child(m[h], slot as int), p) {
        (Some(c), Some(pl)) => can_leave(pl, m, tree_order(m, c)),
        _ => true,
    }
}

/// One broken attachment handled: if allowed, it is cut as
/// `recursive_detach_one` cuts it (`aff` the parts cut loose, in tree
/// order); else nothing changes.
pub open spec fn detach_step(
    m: Map<PartHandle, Part>,
    p: Option<PlayerMeta>,
    h: PartHandle,
    slot: usize,
    m2: Map<PartHandle, Part>,
    p2: Option<PlayerMeta>,
    aff: Seq<PartHandle>,
) -> bool {
    if detach_allowed(m, p, h, slot) {
        match child(m[h], slot as int) {
            None => m2 == m && p2 == p && aff == Seq::<PartHandle>::empty(),
            Some(c) => {
                &&& aff == tree_order(m, c)
                &&& p2 == match p {
                    Some(pl) => Some(left_all(pl, m, aff)),
                    None => None,
                }
                &&& cut_one(m, m2, h, slot as int, aff, p is Some)
            },
        }
    } else {
        m2 == m && p2 == p && aff == Seq::<PartHandle>::empty()
    }
}

/// `ms`, `ps` and `affs` are the worlds, the players and the parts cut
/// loose as the broken attachments named in `pairs` are handled one after
/// the other.
pub open spec fn detach_chain(
    ms: Seq<Map<PartHandle, Part>>,
    ps: Seq<Option<PlayerMeta>>,
    affs: Seq<Seq<PartHandle>>,
    pairs: Seq<(PartHandle, usize)>,
) -> bool {
    &&& ms.len() == pairs.len() + 1
    &&& ps.len() == pairs.len() + 1
    &&& affs.len() == pairs.len()
    &&& forall|k: int|
        0 <= k < pairs.len() ==> #[trigger] detach_step(
            ms[k],
            ps[k],
            pairs[k].0,
            pairs[k].1,
            ms[k + 1],
            ps[k + 1],
            affs[k],
        )
}

/// The sequences of `affs`, one after the other.
pub open spec fn joined(affs: Seq<Seq<PartHandle>>) -> Seq<PartHandle>
    decreases affs.len(),
{
    if affs.len() == 0 {
        seq![]
    } else {
        joined(affs.drop_last()) + affs.last()
    }
}

impl World {
    fn detach_check(&self, h: PartHandle, slot: usize, player: &Option<PlayerMeta>) -> (r: bool)
        ensures
            r == detach_allowed(self@, *player, h, slot),
    {
        if slot >= 4 {
            return false;
        }
        if !self.check_tree(h) {
            return false;
        }
        let ghost m = self@;
        let att = match self.get_part(h) {
            Some(part) => part.attachments[slot],
            None => vstd::pervasive::unreached(),
        };
        proof {
            assert(child(m[h], slot as int) == child(m[h], slot as int));
        }
        match att {
            None => {
                proof {
                    assert(child(m[h], slot as int) is None);
                }
                true
            },
            Some(a) => {
                match player {
                    None => true,
                    Some(pl) => {
                        let c = a.part;
                        proof {
                            let d = TREE_CHECK_DEPTH as nat;
                            assert(tree_within(m, m[h], d));
                            assert(child(m[h], slot as int) == Some(c));
                            assert(m.contains_key(c) && tree_within(m, m[c], (d - 1) as nat));
                            let n = choose|n: nat| tree_within(m, m[c], n);
                            assert(tree_within(m, m[c], n));
                            lemma_below_in_world(m, m[c], n);
                        }
                        let order = self.subtree_order(c);
                        proof {
                            assert forall|j: int| 0 <= j < order@.len() implies m.contains_key(#[trigger] order@[j]) by {
                                if j > 0 {
                                    assert(order@[j] == below_of(m, c)[j - 1]);
                                }
                            }
                        }
                        self.covers(pl, &order)
                    },
                }
            },
        }
    }

    /// Cuts loose, one after the other, the broken attachments named in
    /// `broken` (a part and one of its slots), each as
    /// `recursive_detach_one` cuts it, and adds the parts cut loose to
    /// `parts_affected`.  An attachment that fails the checks of
    /// `detach_allowed` at its turn is left as it is.
    pub fn detach_broken(
        &mut self,
        broken: &Vec<(PartHandle, usize)>,
        player: &mut Option<PlayerMeta>,
        parts_affected: &mut Vec<PartHandle>,
    )
        ensures
            exists|ms: Seq<Map<PartHandle, Part>>, ps: Seq<Option<PlayerMeta>>, affs: Seq<Seq<PartHandle>>|
                #[trigger] detach_chain(ms, ps, affs, broken@) && ms[0] == old(self)@ && ms.last() == final(self)@
                    && ps[0] == *old(player) && ps.last() == *final(player)
                    && final(parts_affected)@ == old(parts_affected)@ + joined(affs),
            match (*old(player), *final(player)) {
                (Some(a), Some(b)) => b.id == a.id && b.parts_touching_planet == a.parts_touching_planet,
                (None, None) => true,
                _ => false,
            },
    {
        let ghost mut ms: Seq<Map<PartHandle, Part>> = seq![self@];
        let ghost mut ps: Seq<Option<PlayerMeta>> = seq![*player];
        let ghost mut affs: Seq<Seq<PartHandle>> = seq![];
        let ghost a0 = parts_affected@;
        let mut k: usize = 0;
        proof {
            assert(a0 + joined(affs) =~= a0);
            assert(broken@.take(0) =~= Seq::<(PartHandle, usize)>::empty());
        }
        while k < broken.len()
            invariant
                k <= broken@.len(),
                detach_chain(ms, ps, affs, broken@.take(k as int)),
                ms[0] == old(self)@,
                ps[0] == *old(player),
                a0 == old(parts_affected)@,
                ms.last() == self@,
                ps.last() == *player,
                parts_affected@ == a0 + joined(affs),
                match (*old(player), *player) {
                    (Some(a), Some(b)) => b.id == a.id && b.parts_touching_planet == a.parts_touching_planet,
                    (None, None) => true,
                    _ => false,
                },
            decreases broken@.len() - k,
        {
            let (h, slot) = broken[k];
            let ghost m = self@;
            let ghost p = *player;
            let ghost before = parts_affected@;
            let allowed = self.detach_check(h, slot, player);
            if allowed {
                proof {
                    let d = TREE_CHECK_DEPTH as nat;
                    assert(tree_within(m, m[h], d));
                }
                self.recursive_detach_one(h, slot, player, parts_affected);
            }
            let ghost aff = parts_affected@.subrange(before.len() as int, parts_affected@.len() as int);
            proof {
                match p {
                    Some(pl) => {
                        lemma_left_all_keeps(pl, m, aff);
                    },
                    None => {},
                }
                assert(parts_affected@ =~= before + aff);
                assert(detach_step(m, p, h, slot, self@, *player, aff)) by {
                    if allowed {
                        match child(m[h], slot as int) {
                            None => {
                                assert(aff =~= Seq::<PartHandle>::empty());
                            },
                            Some(c) => {
                                assert(aff =~= tree_order(m, c));
                            },
                        }
                    } else {
                        assert(aff =~= Seq::<PartHandle>::empty());
                    }
                }
                let ms2 = ms.push(self@);
                let ps2 = ps.push(*player);
                let affs2 = affs.push(aff);
                let pre = broken@.take(k as int);
                let pairs2 = broken@.take(k + 1);
                assert(pairs2 =~= pre.push((h, slot)));
                assert forall|j: int| 0 <= j < pairs2.len() implies #[trigger] detach_step(
                    ms2[j],
                    ps2[j],
                    pairs2[j].0,
                    pairs2[j].1,
                    ms2[j + 1],
                    ps2[j + 1],
                    affs2[j],
                ) by {
                    if j < k {
                        assert(detach_step(ms[j], ps[j], pre[j].0, pre[j].1, ms[j + 1], ps[j + 1], affs[j]));
                        assert(ms2[j] == ms[j] && ms2[j + 1] == ms[j + 1]);
                        assert(ps2[j] == ps[j] && ps2[j + 1] == ps[j + 1]);
                        assert(affs2[j] == affs[j] && pairs2[j] == pre[j]);
                    } else {
                        assert(ms2[j] == m && ps2[j] == p);
                    }
                }
                assert(affs2.drop_last() =~= affs);
                ms = ms2;
                ps = ps2;
                affs = affs2;
            }
            k = k + 1;
        }
        proof {
            assert(broken@.take(broken@.len() as int) =~= broken@);
        }
    }
}


// ---------------------------------------------------------------- turning a part into another

impl Part {
    /// Turns this part, already taken out of the world, into a part of kind
    /// `mutate_into`, stored under a new handle: the same id, thrust mode
    /// and attachments.  When a player is given, the old part leaves their
    /// ship and the new one joins it; else the new part belongs to no one.
    pub fn mutate(self, mutate_into: PartKind, player: &mut Option<PlayerMeta>, world: &mut World) -> (h: PartHandle)
        requires
            match *old(player) {
                Some(p) => p.max_power >= self.kind.spec_power_storage() && p.power_regen_per_5_ticks
                    >= self.kind.spec_power_regen() && left_player(p, self.kind).max_power
                    + mutate_into.spec_power_storage() <= u32::MAX && left_player(p, self.kind).power_regen_per_5_ticks
                    + mutate_into.spec_power_regen() <= u32::MAX,
                None => true,
            },
        ensures
            !old(world)@.contains_key(h),
            final(world)@ == old(world)@.insert(
                h,
                (Part {
                    kind: mutate_into,
                    part_of_player: match *old(player) {
                        Some(p) => Some(p.id),
                        None => None,
                    },
                    ..self
                }),
            ),
            *final(player) == match *old(player) {
                Some(p) => Some(joined_player(left_player(p, self.kind), mutate_into)),
                None => None,
            },
    {
        let mut old_part = self;
        match player {
            Some(p) => {
                old_part.remove_from(p);
            },
            None => {},
        }
        let mut part = Part {
            id: old_part.id,
            kind: mutate_into,
            attachments: old_part.attachments,
            thrust_mode: old_part.thrust_mode,
            part_of_player: None,
        };
        match player {
            Some(p) => {
                part.join_to(p);
            },
            None => {},
        }
        world.add_part(part)
    }
}


// ---------------------------------------------------------------- building a planned ship

/// What slot `i` of the part built for entry `j` of a plan holds, the
/// plan's entries stored under the handles `hs`: the part of the entry the
/// slot names, when that entry comes earlier in the plan; else nothing.
pub open spec fn built_slot(e: InflatedPart, j: int, hs: Seq<PartHandle>, i: int) -> Option<PartAttachment> {
    match e.attachments@[i] {
        Some(k) => if k < j {
            Some(PartAttachment { part: hs[k as int] })
        } else {
            None
        },
        None => None,
    }
}

/// `p` is the part built for entry `e`, the `j`th of its plan, with id
/// `id`: owned by no player, with the entry's kind and thrust mode.
pub open spec fn is_built(p: Part, e: InflatedPart, j: int, hs: Seq<PartHandle>, id: u16) -> bool {
    &&& p.id == id
    &&& p.kind == e.kind
    &&& p.thrust_mode == e.thrust_mode
    &&& p.part_of_player is None
    &&& forall|i: int| 0 <= i < 4 ==> #[trigger] p.attachments@[i] == built_slot(e, j, hs, i)
}

/// The id the `j`th part of a plan gets when ids are handed out from
/// `first` on, counting round after the largest.
pub open spec fn plan_id(first: u16, j: int) -> u16 {
    ((first + j) % 0x1_0000) as u16
}

impl World {
    /// Stores the parts of a plan (see `RecursivePartDescription::inflate`)
    /// in its order, with ids handed out from `*next_id` on, and returns
    /// their handles.
    pub fn add_plan(&mut self, plan: &Vec<InflatedPart>, next_id: &mut u16) -> (r: Vec<PartHandle>)
        ensures
            r@.len() == plan@.len(),
            r@.no_duplicates(),
            forall|j: int| 0 <= j < r@.len() ==> !old(self)@.contains_key(#[trigger] r@[j]),
            final(self)@.dom() == old(self)@.dom() + r@.to_set(),
            forall|k: PartHandle| #[trigger] old(self)@.contains_key(k) ==> final(self)@[k] == old(self)@[k],
            forall|j: int|
                0 <= j < r@.len() ==> is_built(
                    #[trigger] final(self)@[r@[j]],
                    plan@[j],
                    j,
                    r@,
                    plan_id(*old(next_id), j),
                ),
            *final(next_id) == plan_id(*old(next_id), plan@.len() as int),
    {
        let ghost m0 = self@;
        let ghost first = *next_id;
        let mut handles: Vec<PartHandle> = Vec::new();
        let mut j: usize = 0;
        proof {
            assert(m0.dom() + handles@.to_set() =~= m0.dom());
        }
        while j < plan.len()
            invariant
                j <= plan@.len(),
                handles@.len() == j,
                handles@.no_duplicates(),
                *next_id == plan_id(first, j as int),
                forall|x: int| 0 <= x < j ==> !m0.contains_key(#[trigger] handles@[x]),
                self@.dom() == m0.dom() + handles@.to_set(),
                forall|k: PartHandle| #[trigger] m0.contains_key(k) ==> self@[k] == m0[k],
                forall|x: int|
                    0 <= x < j ==> is_built(#[trigger] self@[handles@[x]], plan@[x], x, handles@, plan_id(first, x)),
            decreases plan@.len() - j,
        {
            let e = plan[j];
            let mut atts: [Option<PartAttachment>; 4] = [None, None, None, None];
            let mut i: usize = 0;
            while i < 4
                invariant
                    i <= 4,
                    j < plan@.len(),
                    e == plan@[j as int],
                    handles@.len() == j,
                    forall|y: int| 0 <= y < i ==> #[trigger] atts@[y] == built_slot(e, j as int, handles@, y),
                    forall|y: int| i <= y < 4 ==> #[trigger] atts@[y] is None,
                decreases 4 - i,
            {
                match e.attachments[i] {
                    Some(k) => {
                        if k < j {
                            atts[i] = Some(PartAttachment { part: handles[k] });
                        }
                    },
                    None => {},
                }
                i = i + 1;
            }
            let part = Part { id: *next_id, kind: e.kind, attachments: atts, thrust_mode: e.thrust_mode, part_of_player: None };
            let ghost before = self@;
            let ghost hs0 = handles@;
            let h = self.add_part(part);
            handles.push(h);
            proof {
                assert(!before.contains_key(h));
                assert forall|x: int, y: int| 0 <= x < y < handles@.len() implies handles@[x] != handles@[y] by {
                    if y == j {
                        assert(before.contains_key(hs0[x]));
                    } else {
                        assert(hs0[x] != hs0[y]);
                    }
                }
                assert(self@.dom() =~= m0.dom() + handles@.to_set()) by {
                    assert forall|k: PartHandle| self@.dom().contains(k) <==> (m0.dom() + handles@.to_set()).contains(k) by {
                        if handles@.contains(k) {
                            let x = choose|x: int| 0 <= x < handles@.len() && handles@[x] == k;
                            if x < j {
                                assert(hs0.contains(k));
                                assert(hs0[x] == k);
                            }
                        }
                        if hs0.contains(k) {
                            let x = choose|x: int| 0 <= x < hs0.len() && hs0[x] == k;
                            assert(handles@[x] == k);
                        }
                        assert(handles@[j as int] == h);
                    }
                }
                assert forall|x: int| 0 <= x < j + 1 implies is_built(
                    #[trigger] self@[handles@[x]],
                    plan@[x],
                    x,
                    handles@,
                    plan_id(first, x),
                ) by {
                    if x < j {
                        assert(handles@[x] == hs0[x]);
                        assert(before.contains_key(hs0[x]));
                        assert(is_built(before[hs0[x]], plan@[x], x, hs0, plan_id(first, x)));
                        assert forall|i2: int| 0 <= i2 < 4 implies built_slot(plan@[x], x, hs0, i2) == built_slot(plan@[x], x, handles@, i2) by {
                            match plan@[x].attachments@[i2] {
                                Some(k) => {
                                    if k < x {
                                        assert(hs0[k as int] == handles@[k as int]);
                                    }
                                },
                                None => {},
                            }
                        }
                    } else {
                        assert(handles@[x] == h);
                        assert forall|i2: int| 0 <= i2 < 4 implies built_slot(e, j as int, hs0, i2) == built_slot(e, j as int, handles@, i2) by {
                            match e.attachments@[i2] {
                                Some(k) => {
                                    if k < j {
                                        assert(hs0[k as int] == handles@[k as int]);
                                    }
                                },
                                None => {},
                            }
                        }
                    }
                }
            }
            *next_id = if *next_id == 0xffff {
                0
            } else {
                *next_id + 1
            };
            j = j + 1;
        }
        handles
    }
}


impl World {
    /// Whether every thruster named in `order` has a mode that names a
    /// direction for each kind of input (see `modes_valid`).
    pub fn modes_check(&self, order: &Vec<PartHandle>, clockwise: bool, counter_clockwise: bool) -> (r: bool)
        requires
            forall|j: int| 0 <= j < order@.len() ==> self@.contains_key(#[trigger] order@[j]),
        ensures
            r == modes_valid(self@, order@, clockwise, counter_clockwise),
    {
        let mut i: usize = 0;
        while i < order.len()
            invariant
                i <= order@.len(),
                forall|j: int| 0 <= j < order@.len() ==> self@.contains_key(#[trigger] order@[j]),
                forall|j: int|
                    0 <= j < i ==> thrust_readable(
                        self@[#[trigger] order@[j]].kind,
                        self@[order@[j]].thrust_mode,
                        clockwise,
                        counter_clockwise,
                    ),
            decreases order@.len() - i,
        {
            proof {
                assert(self@.contains_key(order@[i as int]));
            }
            let part = match self.get_part(order[i]) {
                Some(p) => p,
                None => vstd::pervasive::unreached(),
            };
            if part.kind == PartKind::LandingThruster {
                let mode = part.thrust_mode;
                if mode.0 % 4 == 3 {
                    return false;
                }
                let fires = match mode.get_horizontal() {
                    HorizontalThrustMode::Clockwise => clockwise,
                    HorizontalThrustMode::CounterClockwise => counter_clockwise,
                    HorizontalThrustMode::Off => false,
                };
                if !fires && (mode.0 / 4) % 4 == 3 {
                    return false;
                }
            }
            i = i + 1;
        }
        true
    }
}


// ---------------------------------------------------------------- finding a part by its id

/// Slot `s` of part `p` holds a part, in the world, whose id is `id`.
pub open spec fn slot_has_id(m: Map<PartHandle, Part>, p: PartHandle, s: int, id: u16) -> bool {
    match child(m[p], s) {
        Some(c) => m.contains_key(c) && m[c].id == id,
        None => false,
    }
}

impl World {
    /// Where in the ship rooted at `core` the part with id `id` is
    /// attached: its parent and the slot, the first such attachment when
    /// the ship is walked in `tree_order` and each part's slots in order.
    pub fn find_attached_id(&self, core: PartHandle, id: u16) -> (r: Option<(PartHandle, usize)>)
        requires
            self@.contains_key(core),
            is_tree(self@, self@[core]),
        ensures
            match r {
                Some((p, s)) => s < 4 && slot_has_id(self@, p, s as int, id) && exists|j: int|
                    0 <= j < tree_order(self@, core).len() && tree_order(self@, core)[j] == p && (forall|j2: int, s2: int|
                        0 <= j2 < j && 0 <= s2 < 4 ==> !#[trigger] slot_has_id(self@, tree_order(self@, core)[j2], s2, id))
                        && (forall|s2: int| 0 <= s2 < s ==> !slot_has_id(self@, p, s2, id)),
                None => forall|j: int, s: int|
                    0 <= j < tree_order(self@, core).len() && 0 <= s < 4 ==> !#[trigger] slot_has_id(self@, tree_order(self@, core)[j], s, id),
            },
    {
        let order = self.subtree_order(core);
        let ghost m = self@;
        proof {
            let n = choose|n: nat| tree_within(m, m[core], n);
            assert(tree_within(m, m[core], n));
            lemma_below_in_world(m, m[core], n);
            assert forall|j: int| 0 <= j < order@.len() implies m.contains_key(#[trigger] order@[j]) by {
                if j > 0 {
                    assert(order@[j] == below_of(m, core)[j - 1]);
                }
            }
        }
        let mut j: usize = 0;
        while j < order.len()
            invariant
                j <= order@.len(),
                m == self@,
                order@ == tree_order(m, core),
                forall|x: int| 0 <= x < order@.len() ==> m.contains_key(#[trigger] order@[x]),
                forall|j2: int, s2: int| 0 <= j2 < j && 0 <= s2 < 4 ==> !#[trigger] slot_has_id(m, order@[j2], s2, id),
            decreases order@.len() - j,
        {
            let p = order[j];
            proof {
                assert(m.contains_key(order@[j as int]));
            }
            let part = match self.get_part(p) {
                Some(x) => x,
                None => vstd::pervasive::unreached(),
            };
            let mut s: usize = 0;
            while s < 4
                invariant
                    s <= 4,
                    j < order@.len(),
                    p == order@[j as int],
                    m == self@,
                    m.contains_key(p),
                    *part == m[p],
                    order@ == tree_order(m, core),
                    forall|j2: int, s2: int| 0 <= j2 < j && 0 <= s2 < 4 ==> !#[trigger] slot_has_id(m, order@[j2], s2, id),
                    forall|s2: int| 0 <= s2 < s ==> !slot_has_id(m, p, s2, id),
                decreases 4 - s,
            {
                proof {
                    assert(child(m[p], s as int) == child(m[p], s as int));
                }
                match part.attachments[s] {
                    Some(a) => {
                        match self.get_part(a.part) {
                            Some(c) => {
                                if c.id == id {
                                    proof {
                                        assert(slot_has_id(m, p, s as int, id));
                                        assert(tree_order(m, core)[j as int] == p);
                                    }
                                    return Some((p, s));
                                }
                            },
                            None => {},
                        }
                    },
                    None => {},
                }
                s = s + 1;
            }
            j = j + 1;
        }
        None
    }
}


// ---------------------------------------------------------------- a saved ship comes back as it was saved

/// Every part of `d` has four slots, and each part hangs in a slot its
/// parent's kind has.
pub open spec fn fits_slots(d: RecursivePartDescription) -> bool
    decreases d,
{
    &&& d.attachments@.len() == 4
    &&& forall|i: int|
        0 <= i < 4 ==> match #[trigger] d.attachments@[i] {
            None => true,
            Some(c) => d.kind.spec_attachment_facings()@[i] is Some && fits_slots(c),
        }
}

/// Entry `e`, the `j`th of a plan, was stored under `hs[j]` with its kind,
/// each slot holding the part of the earlier entry it names.
spec fn built_entry(m: Map<PartHandle, Part>, hs: Seq<PartHandle>, e: PlannedPart, j: int) -> bool {
    &&& m.contains_key(hs[j])
    &&& m[hs[j]].kind == e.kind
    &&& forall|i: int|
        0 <= i < 4 ==> #[trigger] m[hs[j]].attachments@[i] == match e.attachments[i] {
            Some(k) => if 0 <= k < j {
                Some(PartAttachment { part: hs[k] })
            } else {
                None
            },
            None => None,
        }
}

/// The plan of `d` laid out in `full` from `base` on, its entries built
/// under `hs`: its last entry, the first part of `d`, deflates to `d`.
proof fn lemma_plan_built(
    d: RecursivePartDescription,
    f: AttachedPartFacing,
    x: int,
    y: int,
    base: int,
    full: Seq<PlannedPart>,
    hs: Seq<PartHandle>,
    m: Map<PartHandle, Part>,
)
    requires
        fits_slots(d),
        0 <= base,
        base + inflate_plan(d, f, x, y, base).len() <= full.len(),
        forall|t: int| 0 <= t < inflate_plan(d, f, x, y, base).len() ==> full[base + t] == #[trigger] inflate_plan(d, f, x, y, base)[t],
        hs.len() == full.len(),
        forall|j: int| 0 <= j < full.len() ==> #[trigger] built_entry(m, hs, full[j], j),
    ensures
        inflate_plan(d, f, x, y, base).len() >= 1,
        m.contains_key(hs[base + inflate_plan(d, f, x, y, base).len() - 1]),
        deflates_to(d, m[hs[base + inflate_plan(d, f, x, y, base).len() - 1]], m),
    decreases d, 5nat,
{
    let (parts, slots) = inflate_slots(d, f, x, y, base, 4);
    let q = inflate_plan(d, f, x, y, base);
    assert(q == parts.push(PlannedPart { kind: d.kind, attachments: slots, true_facing: f, x, y }));
    assert forall|t: int| 0 <= t < parts.len() implies full[base + t] == #[trigger] parts[t] by {
        assert(q[t] == parts[t]);
    }
    lemma_slots_built(d, f, x, y, base, 4, full, hs, m);
    let r = base + parts.len();
    assert(full[r] == q[parts.len() as int]);
    assert(built_entry(m, hs, full[r], r));
    let root = m[hs[r]];
    assert forall|i: int| 0 <= i < 4 implies match #[trigger] child(root, i) {
        None => d.attachments@[i] is None,
        Some(c) => d.attachments@[i] matches Some(dc) && m.contains_key(c) && deflates_to(dc, m[c], m),
    } by {
        assert(root.attachments@[i] == match slots[i] {
            Some(k) => if 0 <= k < r {
                Some(PartAttachment { part: hs[k] })
            } else {
                None
            },
            None => None,
        });
        match d.attachments@[i] {
            Some(dc) => {
                assert(d.kind.spec_attachment_facings()@[i] is Some);
                assert(built_child(d, i) == Some(dc));
            },
            None => {
                assert(built_child(d, i) is None);
            },
        }
    }
}

/// The first `n` slots of the plan of `d` (see `inflate_slots`), laid out
/// in `full` from `base` on and built under `hs`: a slot names an entry
/// exactly when `d` has a part there, and that entry deflates to it.
proof fn lemma_slots_built(
    d: RecursivePartDescription,
    f: AttachedPartFacing,
    x: int,
    y: int,
    base: int,
    n: nat,
    full: Seq<PlannedPart>,
    hs: Seq<PartHandle>,
    m: Map<PartHandle, Part>,
)
    requires
        fits_slots(d),
        n <= 4,
        0 <= base,
        base + inflate_slots(d, f, x, y, base, n).0.len() <= full.len(),
        forall|t: int|
            0 <= t < inflate_slots(d, f, x, y, base, n).0.len() ==> full[base + t] == #[trigger] inflate_slots(
                d,
                f,
                x,
                y,
                base,
                n,
            ).0[t],
        hs.len() == full.len(),
        forall|j: int| 0 <= j < full.len() ==> #[trigger] built_entry(m, hs, full[j], j),
    ensures
        inflate_slots(d, f, x, y, base, n).1.len() == n,
        forall|i: int|
            0 <= i < n ==> match #[trigger] built_child(d, i) {
                None => inflate_slots(d, f, x, y, base, n).1[i] is None,
                Some(dc) => inflate_slots(d, f, x, y, base, n).1[i] matches Some(k) && base <= k < base
                    + inflate_slots(d, f, x, y, base, n).0.len() && m.contains_key(hs[k]) && deflates_to(
                    dc,
                    m[hs[k]],
                    m,
                ),
            },
    decreases d, n,
{
    if n > 0 {
        let (parts, slots) = inflate_slots(d, f, x, y, base, n);
        let (p0, s0) = inflate_slots(d, f, x, y, base, (n - 1) as nat);
        let i = n - 1;
        if 0 <= i < 4 && i < d.attachments@.len() && d.kind.spec_attachment_facings()@[i] is Some
            && d.attachments@[i] is Some {
            let c = d.attachments@[i]->0;
            let cf = AttachedPartFacing::from_turns(
                f.quarter_turns() + d.kind.spec_attachment_facings()@[i]->0.quarter_turns(),
            );
            let sub = inflate_plan(c, cf, x + cf.delta().0, y + cf.delta().1, base + p0.len());
            assert(parts == p0 + sub);
            assert(slots == s0.push(Some(base + p0.len() + sub.len() - 1)));
            assert forall|t: int| 0 <= t < p0.len() implies full[base + t] == #[trigger] p0[t] by {
                assert(parts[t] == p0[t]);
            }
            assert forall|t: int| 0 <= t < sub.len() implies full[base + p0.len() + t] == #[trigger] sub[t] by {
                assert(parts[p0.len() + t] == sub[t]);
            }
            assert(fits_slots(c));
            lemma_slots_built(d, f, x, y, base, (n - 1) as nat, full, hs, m);
            lemma_plan_built(c, cf, x + cf.delta().0, y + cf.delta().1, base + p0.len(), full, hs, m);
            assert forall|i2: int| 0 <= i2 < n implies match #[trigger] built_child(d, i2) {
                None => slots[i2] is None,
                Some(dc) => slots[i2] matches Some(k) && base <= k < base + parts.len() && m.contains_key(hs[k])
                    && deflates_to(dc, m[hs[k]], m),
            } by {
                if i2 < i {
                    assert(slots[i2] == s0[i2]);
                    assert(built_child(d, i2) == built_child(d, i2));
                } else {
                    assert(built_child(d, i2) == Some(c));
                }
            }
        } else {
            assert(parts == p0);
            assert(slots == s0.push(None));
            lemma_slots_built(d, f, x, y, base, (n - 1) as nat, full, hs, m);
            assert forall|i2: int| 0 <= i2 < n implies match #[trigger] built_child(d, i2) {
                None => slots[i2] is None,
                Some(dc) => slots[i2] matches Some(k) && base <= k < base + parts.len() && m.contains_key(hs[k])
                    && deflates_to(dc, m[hs[k]], m),
            } by {
                if i2 < i {
                    assert(slots[i2] == s0[i2]);
                    assert(built_child(d, i2) == built_child(d, i2));
                } else {
                    assert(built_child(d, i2) is None);
                }
            }
        }
    }
}

/// A saved ship whose parts all hang in slots their parents have, planned
/// (see `RecursivePartDescription::inflate`) and built (see
/// `World::add_plan`), deflates back to the same saved ship: beaming a ship
/// in and then out again keeps it as it was.
pub proof fn rebuilt_ship_deflates_back(
    d: RecursivePartDescription,
    plan: Seq<InflatedPart>,
    hs: Seq<PartHandle>,
    m: Map<PartHandle, Part>,
    first: u16,
)
    requires
        fits_slots(d),
        plan_is(plan, inflate_plan(d, AttachedPartFacing::Up, 0, 0, 0)),
        hs.len() == plan.len(),
        forall|j: int| 0 <= j < hs.len() ==> m.contains_key(#[trigger] hs[j]),
        forall|j: int| 0 <= j < hs.len() ==> is_built(#[trigger] m[hs[j]], plan[j], j, hs, plan_id(first, j)),
    ensures
        hs.len() >= 1,
        deflates_to(d, m[hs.last()], m),
{
    let full = inflate_plan(d, AttachedPartFacing::Up, 0, 0, 0);
    assert forall|j: int| 0 <= j < full.len() implies #[trigger] built_entry(m, hs, full[j], j) by {
        assert(plan[j].is(full[j]));
        assert(m.contains_key(hs[j]));
        assert(is_built(m[hs[j]], plan[j], j, hs, plan_id(first, j)));
        assert forall|i: int| 0 <= i < 4 implies #[trigger] m[hs[j]].attachments@[i] == match full[j].attachments[i] {
            Some(k) => if 0 <= k < j {
                Some(PartAttachment { part: hs[k] })
            } else {
                None
            },
            None => None,
        } by {
            assert(m[hs[j]].attachments@[i] == built_slot(plan[j], j, hs, i));
            assert(full[j].attachments == plan[j].planned().attachments);
            assert(plan[j].planned().attachments[i] == match plan[j].attachments@[i] {
                Some(v) => Some(v as int),
                None => None,
            });
        }
    }
    assert forall|t: int| 0 <= t < full.len() implies full[0 + t] == #[trigger] full[t] by {}
    lemma_plan_built(d, AttachedPartFacing::Up, 0, 0, 0, full, hs, m);
}

} // verus!
