use ship_server::beamout::RecursivePartDescription;
use ship_server::codec::{PartKind, ToClientMsg};
use ship_server::parts::{
    thrust_no_recurse, AttachedPartFacing, CompactThrustMode, HorizontalThrustMode, Part, PartAttachment,
    VerticalThrustMode,
};
use ship_server::player::PlayerMeta;
use ship_server::world::PartHandle;

fn h(index: usize) -> PartHandle {
    PartHandle { index, generation: 0 }
}

#[test]
fn facing_composes_by_quarter_turns() {
    assert_eq!(AttachedPartFacing::Right.compute_true_facing(AttachedPartFacing::Right), AttachedPartFacing::Down);
    assert_eq!(AttachedPartFacing::Left.compute_true_facing(AttachedPartFacing::Down), AttachedPartFacing::Right);
    assert_eq!(AttachedPartFacing::Up.compute_true_facing(AttachedPartFacing::Left), AttachedPartFacing::Left);
}

#[test]
fn facing_numbers_roundtrip() {
    for n in 0u8..4 {
        assert_eq!(AttachedPartFacing::from(n).into(), n);
    }
}

#[test]
fn deltas_step_three_cells() {
    assert_eq!(AttachedPartFacing::Up.delta_rel_part(), (0, 3));
    assert_eq!(AttachedPartFacing::Right.delta_rel_part(), (3, 0));
    assert_eq!(AttachedPartFacing::Down.delta_rel_part(), (0, -3));
    assert_eq!(AttachedPartFacing::Left.delta_rel_part(), (-3, 0));
}

#[test]
fn thrust_mode_packs_and_unpacks() {
    let m = CompactThrustMode::new(HorizontalThrustMode::Clockwise, VerticalThrustMode::Forwards);
    assert_eq!(m.0, 0b0101);
    assert_eq!(m.get_horizontal(), HorizontalThrustMode::Clockwise);
    assert_eq!(m.get_vertical(), VerticalThrustMode::Forwards);
    let mut m2 = m;
    m2.set_vertical(VerticalThrustMode::Off);
    assert_eq!(m2.get_horizontal(), HorizontalThrustMode::Clockwise);
    assert_eq!(m2.get_vertical(), VerticalThrustMode::Off);
    m2.set_horizontal(HorizontalThrustMode::CounterClockwise);
    assert_eq!(m2.0, 0b1000);
}

#[test]
fn thrust_mode_from_position() {
    let m = CompactThrustMode::calculate(AttachedPartFacing::Up, -3, 0);
    assert_eq!(m.get_horizontal(), HorizontalThrustMode::CounterClockwise);
    assert_eq!(m.get_vertical(), VerticalThrustMode::Backwards);
    let m = CompactThrustMode::calculate(AttachedPartFacing::Down, 0, 6);
    assert_eq!(m.get_horizontal(), HorizontalThrustMode::Off);
    assert_eq!(m.get_vertical(), VerticalThrustMode::Forwards);
    let m = CompactThrustMode::calculate(AttachedPartFacing::Right, 3, 3);
    assert_eq!(m.get_horizontal(), HorizontalThrustMode::CounterClockwise);
    assert_eq!(m.get_vertical(), VerticalThrustMode::Off);
}

#[test]
fn power_figures_per_kind() {
    assert_eq!(PartKind::Core.power_storage(), 2000);
    assert_eq!(PartKind::Hub.power_storage(), 666);
    assert_eq!(PartKind::LandingThruster.power_storage(), 400);
    assert_eq!(PartKind::SolarPanel.power_regen_per_5_ticks(), 2);
    assert_eq!(PartKind::Cargo.power_regen_per_5_ticks(), 0);
    assert!(!PartKind::Cargo.can_beamout());
    assert!(PartKind::Hub.can_beamout());
}

#[test]
fn core_fires_corners_and_uses_one_unit() {
    let mode = CompactThrustMode::new(HorizontalThrustMode::Off, VerticalThrustMode::Off);
    let mut fuel = 5u32;
    let f = thrust_no_recurse(PartKind::Core, &mode, &mut fuel, true, false, false, false);
    assert!(f.bottom_left && f.bottom_right && !f.top_left && !f.top_right && !f.part);
    assert_eq!(fuel, 4);
    let mut empty = 0u32;
    let f = thrust_no_recurse(PartKind::Core, &mode, &mut empty, true, true, true, true);
    assert!(!f.bottom_left && !f.top_right);
    assert_eq!(empty, 0);
}

#[test]
fn landing_thruster_fires_when_its_mode_matches() {
    let mode = CompactThrustMode::new(HorizontalThrustMode::Clockwise, VerticalThrustMode::Backwards);
    let mut fuel = 3u32;
    let f = thrust_no_recurse(PartKind::LandingThruster, &mode, &mut fuel, false, false, true, false);
    assert!(f.part);
    assert_eq!(fuel, 1);
    let f = thrust_no_recurse(PartKind::LandingThruster, &mode, &mut fuel, false, false, true, false);
    assert!(!f.part);
    assert_eq!(fuel, 1);
    let mut fuel2 = 10u32;
    let f = thrust_no_recurse(PartKind::LandingThruster, &mode, &mut fuel2, true, false, false, true);
    assert!(!f.part);
    assert_eq!(fuel2, 10);
}

#[test]
fn join_then_remove_gives_back_power() {
    let mut player = PlayerMeta::new(1, h(0), String::from("p"), None);
    let mode = CompactThrustMode::new(HorizontalThrustMode::Off, VerticalThrustMode::Off);
    let mut hub = Part::new(7, PartKind::Hub, mode);
    hub.join_to(&mut player);
    assert_eq!(player.max_power, 666);
    assert_eq!(hub.part_of_player(), Some(1));
    player.power = 600;
    hub.remove_from(&mut player);
    assert_eq!(player.max_power, 0);
    assert_eq!(player.power, 0);
    assert_eq!(hub.part_of_player(), None);
}

#[test]
fn attach_and_detach_slots() {
    let mode = CompactThrustMode::new(HorizontalThrustMode::Off, VerticalThrustMode::Off);
    let mut core = Part::new(0, PartKind::Core, mode);
    core.attach_part_player_agnostic(2, h(9));
    assert!(core.attachments()[2].is_some());
    assert_eq!(core.detach_part_player_agnostic(2), Some(h(9)));
    assert_eq!(core.detach_part_player_agnostic(2), None);
}

#[test]
fn inflating_a_lone_core() {
    let plan = RecursivePartDescription::from(PartKind::Core).inflate();
    assert_eq!(plan.len(), 1);
    assert_eq!(plan[0].kind, PartKind::Core);
    assert_eq!(plan[0].attachments, [None, None, None, None]);
    assert_eq!((plan[0].rel_part_x, plan[0].rel_part_y), (0, 0));
    assert_eq!(plan[0].true_facing, AttachedPartFacing::Up);
}

#[test]
fn inflating_a_ship_lists_children_first() {
    let hub = RecursivePartDescription {
        kind: PartKind::Hub,
        attachments: vec![
            Some(RecursivePartDescription::from(PartKind::Cargo)),
            Some(RecursivePartDescription::from(PartKind::LandingThruster)),
        ],
    };
    let ship = RecursivePartDescription {
        kind: PartKind::Core,
        attachments: vec![None, Some(hub), None, None, Some(RecursivePartDescription::from(PartKind::Cargo))],
    };
    let plan = ship.inflate();
    // The hub's slot 0 does not exist, and the core's fifth slot neither:
    // the thruster, the hub, then the core.
    assert_eq!(plan.len(), 3);
    assert_eq!(plan[0].kind, PartKind::LandingThruster);
    assert_eq!(plan[1].kind, PartKind::Hub);
    assert_eq!(plan[2].kind, PartKind::Core);
    assert_eq!(plan[2].attachments, [None, Some(1), None, None]);
    assert_eq!(plan[1].attachments, [None, Some(0), None, None]);
    assert_eq!(plan[1].true_facing, AttachedPartFacing::Right);
    assert_eq!((plan[1].rel_part_x, plan[1].rel_part_y), (3, 0));
    assert_eq!(plan[0].true_facing, AttachedPartFacing::Up);
    assert_eq!((plan[0].rel_part_x, plan[0].rel_part_y), (3, 3));
    assert_eq!(plan[0].thrust_mode.get_horizontal(), HorizontalThrustMode::Clockwise);
}

#[test]
fn a_part_shows_itself_in_three_messages() {
    let mut p = Part::new(7, PartKind::Hub, CompactThrustMode(0b0110));
    p.part_of_player = Some(3);
    let msgs = p.inflation_msgs(1, 2, 3, 4);
    match &msgs[0] {
        ToClientMsg::AddPart { id, kind } => {
            assert_eq!(*id, 7);
            assert_eq!(*kind, PartKind::Hub);
        }
        _ => panic!("the part first"),
    }
    match &msgs[1] {
        ToClientMsg::MovePart { id, x, y, rotation_n, rotation_i } => {
            assert_eq!((*id, *x, *y, *rotation_n, *rotation_i), (7, 1, 2, 3, 4));
        }
        _ => panic!("then where it is"),
    }
    match &msgs[2] {
        ToClientMsg::UpdatePartMeta { id, owning_player, thrust_mode } => {
            assert_eq!((*id, *owning_player, *thrust_mode), (7, Some(3), 0b0110));
        }
        _ => panic!("then its owner"),
    }
    assert!(!PartAttachment { part: h(1) }.is_broken());
}

#[test]
fn calculated_thrust_bytes() {
    assert_eq!(CompactThrustMode::calculate(AttachedPartFacing::Down, -3, -6).into(), 5);
    assert_eq!(CompactThrustMode::calculate(AttachedPartFacing::Right, 0, 0).into(), 9);
    assert_eq!(CompactThrustMode::calculate(AttachedPartFacing::Up, 0, 3).into(), 2);
    assert_eq!(CompactThrustMode::calculate(AttachedPartFacing::Left, 0, -3).into(), 8);
}

#[test]
fn setting_one_field_over_an_unreadable_one() {
    // The rotation field holds no mode; setting it needs only the other.
    let mut m = CompactThrustMode(0b0111);
    m.set_horizontal(HorizontalThrustMode::Clockwise);
    assert_eq!(m.0, 0b0101);
    let mut m = CompactThrustMode(0b1110);
    m.set_vertical(VerticalThrustMode::Forwards);
    assert_eq!(m.0, 0b0110);
    // Each field can be read while the other holds no mode.
    assert_eq!(CompactThrustMode(0b1101).get_horizontal(), HorizontalThrustMode::Clockwise);
    assert_eq!(CompactThrustMode(0b0111).get_vertical(), VerticalThrustMode::Forwards);
}

#[test]
fn an_inflated_lone_core_has_the_byte_of_its_place() {
    let plan = RecursivePartDescription::from(PartKind::Core).inflate();
    assert_eq!(plan[0].thrust_mode.into(), 2);
}
