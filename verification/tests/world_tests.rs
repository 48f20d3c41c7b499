use ship_server::beamout::RecursivePartDescription;
use ship_server::codec::{PartKind, ToClientMsg};
use ship_server::parts::{CompactThrustMode, HorizontalThrustMode, Part, PartAttachment, VerticalThrustMode};
use ship_server::player::PlayerMeta;
use ship_server::game::recursive_broken_detach;
use ship_server::player::{FreePart, DEFAULT_PART_DECAY_TICKS};
use ship_server::session::ToSerializerEvent;
use ship_server::world::{PartHandle, PartVisitDetails, World};

fn off() -> CompactThrustMode {
    CompactThrustMode::new(HorizontalThrustMode::Off, VerticalThrustMode::Off)
}

/// A ship: a core, cargo on its top, a hub on its right; on the hub a
/// landing thruster (slot 1) and cargo (slot 2).
struct Ship {
    world: World,
    core: PartHandle,
    top_cargo: PartHandle,
    hub: PartHandle,
    thruster: PartHandle,
    hub_cargo: PartHandle,
}

fn ship() -> Ship {
    let mut world = World::new();
    let top_cargo = world.add_part(Part::new(1, PartKind::Cargo, off()));
    let thruster = world.add_part(Part::new(
        2,
        PartKind::LandingThruster,
        CompactThrustMode::new(HorizontalThrustMode::Clockwise, VerticalThrustMode::Backwards),
    ));
    let hub_cargo = world.add_part(Part::new(3, PartKind::Cargo, off()));
    let mut hub_part = Part::new(4, PartKind::Hub, off());
    hub_part.attachments[1] = Some(PartAttachment { part: thruster });
    hub_part.attachments[2] = Some(PartAttachment { part: hub_cargo });
    let hub = world.add_part(hub_part);
    let mut core_part = Part::new(5, PartKind::Core, off());
    core_part.attachments[0] = Some(PartAttachment { part: top_cargo });
    core_part.attachments[1] = Some(PartAttachment { part: hub });
    let core = world.add_part(core_part);
    Ship { world, core, top_cargo, hub, thruster, hub_cargo }
}

#[test]
fn parts_are_found_by_handle() {
    let s = ship();
    assert_eq!(s.world.get_part(s.hub).map(|p| p.id), Some(4));
    let mut w = World::new();
    let h = w.add_part(Part::new(9, PartKind::Hub, off()));
    assert!(w.remove_part(h).is_some());
    assert!(w.get_part(h).is_none());
    assert!(w.remove_part(h).is_none());
}

#[test]
fn deflating_a_ship() {
    let s = ship();
    let d = s.world.get_part(s.core).unwrap().deflate(&s.world);
    assert_eq!(d.kind, PartKind::Core);
    assert_eq!(d.attachments.len(), 4);
    assert_eq!(d.attachments[0].as_ref().unwrap().kind, PartKind::Cargo);
    let hub = d.attachments[1].as_ref().unwrap();
    assert_eq!(hub.kind, PartKind::Hub);
    assert_eq!(hub.attachments[1].as_ref().unwrap().kind, PartKind::LandingThruster);
    assert!(d.attachments[2].is_none());
}

#[test]
fn subtree_order_is_depth_first() {
    let s = ship();
    assert_eq!(s.world.subtree_order(s.core), vec![s.core, s.top_cargo, s.hub, s.thruster, s.hub_cargo]);
}

#[test]
fn visit_order_carries_the_places() {
    let s = ship();
    let v = s.world.visit_order(s.core, PartVisitDetails::default());
    let handles: Vec<PartHandle> = v.iter().map(|e| e.0).collect();
    assert_eq!(handles, vec![s.core, s.top_cargo, s.hub, s.thruster, s.hub_cargo]);
    assert_eq!((v[1].1.part_rel_x, v[1].1.part_rel_y), (0, 3));
    assert_eq!((v[2].1.part_rel_x, v[2].1.part_rel_y), (3, 0));
    assert_eq!((v[3].1.part_rel_x, v[3].1.part_rel_y), (3, 3));
    assert_eq!((v[4].1.part_rel_x, v[4].1.part_rel_y), (6, 0));
}

#[test]
fn first_cargo_is_found() {
    let s = ship();
    let core = s.world.get_part(s.core).unwrap();
    assert_eq!(core.find_cargo_recursive(&s.world), Some((None, 0)));
    let hub = s.world.get_part(s.hub).unwrap();
    assert_eq!(hub.find_cargo_recursive(&s.world), Some((None, 2)));
    let mut s2 = ship();
    let _ = s2.world.get_part_mut(s2.core).unwrap().detach_part_player_agnostic(0);
    let core2 = s2.world.get_part(s2.core).unwrap();
    assert_eq!(core2.find_cargo_recursive(&s2.world), Some((Some(s2.hub), 2)));
}

#[test]
fn deleting_a_subtree() {
    let mut s = ship();
    let mut msgs = Vec::new();
    let removed = s.world.delete_parts_recursive(s.hub, &mut msgs);
    assert_eq!(removed, vec![s.hub, s.thruster, s.hub_cargo]);
    let ids: Vec<u16> = msgs
        .iter()
        .map(|m| match m {
            ToClientMsg::RemovePart { id } => *id,
            _ => panic!("removal messages only"),
        })
        .collect();
    assert_eq!(ids, vec![4, 2, 3]);
    assert!(s.world.get_part(s.thruster).is_none());
    assert!(s.world.get_part(s.core).is_some());
    assert!(s.world.delete_parts_recursive(s.hub, &mut msgs).is_empty());
}

#[test]
fn detaching_charges_the_player() {
    let mut s = ship();
    let mut p = PlayerMeta::new(1, s.core, String::from("p"), None);
    p.max_power = 3000;
    p.power = 2900;
    let mut player = Some(p);
    let mut affected = Vec::new();
    s.world.recursive_detach_one(s.core, 1, &mut player, &mut affected);
    assert_eq!(affected, vec![s.hub, s.thruster, s.hub_cargo]);
    let p = player.unwrap();
    assert_eq!(p.max_power, 3000 - 666 - 400);
    assert_eq!(p.power, 3000 - 666 - 400);
    assert!(s.world.get_part(s.core).unwrap().attachments[1].is_none());
    assert!(s.world.get_part(s.hub).unwrap().attachments.iter().all(|a| a.is_none()));
    assert_eq!(s.world.get_part(s.hub).unwrap().part_of_player(), None);
}

#[test]
fn detaching_an_empty_slot_changes_nothing() {
    let mut s = ship();
    let mut player: Option<PlayerMeta> = None;
    let mut affected = Vec::new();
    s.world.recursive_detach_one(s.core, 3, &mut player, &mut affected);
    assert!(affected.is_empty());
    assert!(s.world.get_part(s.core).unwrap().attachments[1].is_some());
}

#[test]
fn detach_all_frees_everything_below() {
    let mut s = ship();
    let mut player: Option<PlayerMeta> = None;
    let mut affected = Vec::new();
    s.world.recursive_detach_all(s.core, &mut player, &mut affected);
    assert_eq!(affected, vec![s.top_cargo, s.hub, s.thruster, s.hub_cargo]);
    assert!(s.world.get_part(s.core).unwrap().attachments.iter().all(|a| a.is_none()));
}

#[test]
fn thrust_walks_the_ship() {
    let s = ship();
    let mut p = PlayerMeta::new(1, s.core, String::from("p"), None);
    p.power = 10;
    p.thrust_clockwise = true;
    let forces = s.world.recursive_thrust_player(s.core, &mut p);
    assert_eq!(forces.len(), 5);
    assert_eq!(forces[0].0, s.core);
    assert!(forces[0].1.bottom_right && forces[0].1.top_left);
    assert!(forces[3].1.part);
    // One unit for the core, two for the landing thruster.
    assert_eq!(p.power, 7);
}

#[test]
fn sound_trees_pass_the_check() {
    let s = ship();
    assert!(s.world.check_tree(s.core));
    assert!(s.world.check_tree(s.thruster));
    let mut w = World::new();
    let gone = w.add_part(Part::new(1, PartKind::Cargo, off()));
    assert!(w.remove_part(gone).is_some());
    assert!(!w.check_tree(gone));
}

#[test]
fn shared_and_missing_parts_fail_the_check() {
    // A cargo box hanging from two slots of one hub.
    let mut w = World::new();
    let cargo = w.add_part(Part::new(1, PartKind::Cargo, off()));
    let mut hub = Part::new(2, PartKind::Hub, off());
    hub.attachments[1] = Some(PartAttachment { part: cargo });
    hub.attachments[3] = Some(PartAttachment { part: cargo });
    let hub = w.add_part(hub);
    assert!(!w.check_tree(hub));
    // A hub holding a part that is not in the world.
    let stray = w.add_part(Part::new(3, PartKind::Cargo, off()));
    let _ = w.remove_part(stray);
    let mut hub2 = Part::new(4, PartKind::Hub, off());
    hub2.attachments[2] = Some(PartAttachment { part: stray });
    let hub2 = w.add_part(hub2);
    assert!(!w.check_tree(hub2));
}

#[test]
fn a_ring_of_parts_fails_the_check() {
    let mut w = World::new();
    let a = w.add_part(Part::new(1, PartKind::Hub, off()));
    let mut b = Part::new(2, PartKind::Hub, off());
    b.attachments[2] = Some(PartAttachment { part: a });
    let b = w.add_part(b);
    w.get_part_mut(a).unwrap().attachments[2] = Some(PartAttachment { part: b });
    assert!(!w.check_tree(a));
}

#[test]
fn covering_the_parts_that_leave() {
    let s = ship();
    let mut p = PlayerMeta::new(1, s.core, String::from("p"), None);
    p.max_power = 1066;
    let below_hub = s.world.subtree_order(s.hub);
    assert!(s.world.covers(&p, &below_hub));
    p.max_power = 1065;
    assert!(!s.world.covers(&p, &below_hub));
    assert!(s.world.covers(&p, &Vec::new()));
}

#[test]
fn mutating_cargo_keeps_id_and_owner() {
    let mut s = ship();
    let mut p = PlayerMeta::new(7, s.core, String::from("p"), None);
    p.max_power = 2000;
    p.power = 1500;
    let _ = s.world.get_part_mut(s.core).unwrap().detach_part_player_agnostic(0);
    let old = s.world.remove_part_unchecked(s.top_cargo);
    let mut player = Some(p);
    let h = old.mutate(PartKind::Hub, &mut player, &mut s.world);
    let part = s.world.get_part(h).unwrap();
    assert_eq!(part.id, 1);
    assert_eq!(part.kind, PartKind::Hub);
    assert_eq!(part.part_of_player, Some(7));
    assert_eq!(player.as_ref().unwrap().max_power, 2000 + 666);
    assert!(s.world.get_part(s.top_cargo).is_none());
    let lone = Part::new(9, PartKind::Cargo, off());
    let mut nobody: Option<PlayerMeta> = None;
    let h2 = lone.mutate(PartKind::SolarPanel, &mut nobody, &mut s.world);
    assert_eq!(s.world.get_part(h2).unwrap().part_of_player, None);
    assert_eq!(s.world.get_part(h2).unwrap().kind, PartKind::SolarPanel);
}

#[test]
fn broken_attachments_are_cut_in_order() {
    let mut s = ship();
    let mut p = PlayerMeta::new(1, s.core, String::from("p"), None);
    p.max_power = 3000;
    p.power = 100;
    p.parts_touching_planet = vec![s.thruster];
    p.touching_planet = Some(2);
    p.can_beamout = true;
    let mut player = Some(p);
    let mut affected = Vec::new();
    // Slot 1 of the hub, then slot 1 of the core; an empty slot; a slot
    // out of range.
    let broken = vec![(s.hub, 1), (s.core, 1), (s.core, 2), (s.core, 9)];
    s.world.detach_broken(&broken, &mut player, &mut affected);
    assert_eq!(affected, vec![s.thruster, s.hub, s.hub_cargo]);
    assert_eq!(player.as_ref().unwrap().max_power, 3000 - 400 - 666);
    assert!(s.world.get_part(s.core).unwrap().attachments[0].is_some());
}

#[test]
fn broken_ship_parts_become_free_and_decay() {
    let mut s = ship();
    let mut p = PlayerMeta::new(1, s.core, String::from("p"), None);
    p.max_power = 3000;
    p.parts_touching_planet = vec![s.hub_cargo];
    p.touching_planet = Some(2);
    p.can_beamout = true;
    let mut player = Some(p);
    let mut out = Vec::new();
    let free = recursive_broken_detach(&mut s.world, &vec![(s.core, 1)], &mut player, &mut out);
    let ids: Vec<u16> = free.iter().map(|e| e.0).collect();
    assert_eq!(ids, vec![4, 2, 3]);
    match &free[0].1 {
        FreePart::Decaying(h, t) => {
            assert_eq!(*h, s.hub);
            assert_eq!(*t, DEFAULT_PART_DECAY_TICKS);
        }
        _ => panic!("a decaying part"),
    }
    assert_eq!(out.len(), 4);
    match &out[0] {
        ToSerializerEvent::Broadcast(ToClientMsg::UpdatePartMeta { id, owning_player, .. }) => {
            assert_eq!(*id, 4);
            assert_eq!(*owning_player, None);
        }
        _ => panic!("a part's new owner first"),
    }
    match &out[3] {
        ToSerializerEvent::Message(1, ToClientMsg::UpdateMyMeta { max_power, can_beamout }) => {
            assert_eq!(*max_power, 3000 - 666 - 400);
            assert!(!*can_beamout);
        }
        _ => panic!("the player's own figures last"),
    }
    let p = player.unwrap();
    assert!(p.touching_planet.is_none());
    assert!(p.parts_touching_planet.is_empty());
}

#[test]
fn nothing_broken_still_reports_the_player() {
    let mut s = ship();
    let mut player = Some(PlayerMeta::new(3, s.core, String::from("p"), None));
    let mut out = Vec::new();
    let free = recursive_broken_detach(&mut s.world, &Vec::new(), &mut player, &mut out);
    assert!(free.is_empty());
    assert_eq!(out.len(), 1);
    let mut nobody: Option<PlayerMeta> = None;
    let mut out2 = Vec::new();
    assert!(recursive_broken_detach(&mut s.world, &Vec::new(), &mut nobody, &mut out2).is_empty());
    assert!(out2.is_empty());
}

#[test]
fn building_a_planned_ship() {
    let hub = RecursivePartDescription {
        kind: PartKind::Hub,
        attachments: vec![None, Some(RecursivePartDescription::from(PartKind::LandingThruster))],
    };
    let ship = RecursivePartDescription { kind: PartKind::Core, attachments: vec![None, Some(hub)] };
    assert!(ship.depth_within(3));
    assert!(!ship.depth_within(2));
    let plan = ship.inflate();
    let mut w = World::new();
    let mut next_id: u16 = 0xfffe;
    let handles = w.add_plan(&plan, &mut next_id);
    assert_eq!(handles.len(), 3);
    assert_eq!(next_id, 1);
    let core = w.get_part(handles[2]).unwrap();
    assert_eq!(core.id, 0);
    assert_eq!(core.kind, PartKind::Core);
    assert_eq!(core.attachments[1].map(|a| a.part), Some(handles[1]));
    assert_eq!(w.get_part(handles[0]).unwrap().id, 0xfffe);
    assert!(w.check_tree(handles[2]));
    assert_eq!(w.subtree_order(handles[2]), vec![handles[2], handles[1], handles[0]]);
}

#[test]
fn finding_a_part_by_id() {
    let s = ship();
    assert_eq!(s.world.find_attached_id(s.core, 3), Some((s.hub, 2)));
    assert_eq!(s.world.find_attached_id(s.core, 1), Some((s.core, 0)));
    assert_eq!(s.world.find_attached_id(s.core, 5), None);
    assert_eq!(s.world.find_attached_id(s.hub, 1), None);
}

#[test]
fn thrust_modes_are_checked() {
    let mut s = ship();
    let order = s.world.subtree_order(s.core);
    assert!(s.world.modes_check(&order, false, false));
    s.world.get_part_mut(s.thruster).unwrap().thrust_mode = CompactThrustMode(0b0011);
    assert!(!s.world.modes_check(&order, true, true));
    // Clockwise, with no straight-line mode: readable only while turning
    // clockwise.
    s.world.get_part_mut(s.thruster).unwrap().thrust_mode = CompactThrustMode(0b1101);
    assert!(s.world.modes_check(&order, true, false));
    assert!(!s.world.modes_check(&order, false, true));
    // Parts that do not thrust never read their mode.
    s.world.get_part_mut(s.thruster).unwrap().thrust_mode = CompactThrustMode(0);
    s.world.get_part_mut(s.hub).unwrap().thrust_mode = CompactThrustMode(0b1111);
    assert!(s.world.modes_check(&order, false, false));
    assert!(CompactThrustMode(0b0110).is_valid());
    assert!(!CompactThrustMode(0b1100).is_valid());
}

#[test]
fn a_walk_from_a_missing_part_visits_nothing() {
    let mut w = World::new();
    let gone = w.add_part(Part::new(1, PartKind::Cargo, off()));
    let _ = w.remove_part(gone);
    assert!(w.visit_order(gone, PartVisitDetails::default()).is_empty());
}
