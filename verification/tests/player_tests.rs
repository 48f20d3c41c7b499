use ship_server::codec::ToClientMsg;
use ship_server::player::{FreePart, FreePartTick, PlayerMeta, DEFAULT_PART_DECAY_TICKS};
use ship_server::world::PartHandle;

fn h(index: usize) -> PartHandle {
    PartHandle { index, generation: 0 }
}

#[test]
fn new_player_has_no_power() {
    let p = PlayerMeta::new(5, h(0), String::from("x"), None);
    assert_eq!(p.power, 0);
    assert_eq!(p.max_power, 0);
    assert!(!p.can_beamout);
    match p.update_my_meta() {
        ToClientMsg::UpdateMyMeta { max_power, can_beamout } => {
            assert_eq!(max_power, 0);
            assert!(!can_beamout);
        }
        _ => panic!("wrong message"),
    }
}

#[test]
fn power_regenerates_up_to_the_maximum() {
    let mut p = PlayerMeta::new(5, h(0), String::from("x"), None);
    p.max_power = 10;
    p.power = 9;
    p.power_regen_per_5_ticks = 4;
    p.regenerate_power();
    assert_eq!(p.power, 10);
}

#[test]
fn touching_and_leaving_a_planet() {
    let mut p = PlayerMeta::new(5, h(0), String::from("x"), None);
    p.max_power = 30;
    p.touch_planet(2, true, h(1));
    assert_eq!(p.touching_planet, Some(2));
    assert!(p.can_beamout);
    assert_eq!(p.power, 30);
    p.touch_planet(2, true, h(2));
    assert!(!p.untouch_part(h(1)));
    assert!(p.untouch_part(h(2)));
    assert_eq!(p.touching_planet, None);
    assert!(!p.can_beamout);
}

#[test]
fn free_parts_decay_and_respawn() {
    let mut decaying = FreePart::Decaying(h(1), 2);
    assert!(matches!(decaying.tick(), FreePartTick::Keep));
    assert!(matches!(decaying.tick(), FreePartTick::Delete));
    let mut grabbed = FreePart::Grabbed(h(2));
    assert!(matches!(grabbed.tick(), FreePartTick::Keep));
    grabbed.become_decaying();
    assert!(matches!(grabbed, FreePart::Decaying(_, t) if t == DEFAULT_PART_DECAY_TICKS));
    let mut cargo = FreePart::EarthCargo(h(3), 5);
    let mut count = 1u8;
    cargo.become_grabbed(&mut count);
    assert_eq!(count, 0);
    assert_eq!(cargo.deref(), h(3));
}

#[test]
fn touching_parts_are_listed_once() {
    let mut p = PlayerMeta::new(5, h(0), String::from("x"), None);
    assert!(p.touching_parts_distinct());
    p.parts_touching_planet = vec![h(1), h(2), h(1)];
    assert!(!p.touching_parts_distinct());
    p.parts_touching_planet = vec![h(1), h(2), h(3)];
    assert!(p.touching_parts_distinct());
}

#[test]
fn only_loose_parts_and_cargo_boxes_can_be_grabbed() {
    assert!(FreePart::Decaying(h(1), 3).can_be_grabbed());
    assert!(FreePart::EarthCargo(h(2), 3).can_be_grabbed());
    assert!(!FreePart::Grabbed(h(3)).can_be_grabbed());
    assert!(!FreePart::PlaceholderLol.can_be_grabbed());
    assert!(FreePart::Decaying(h(1), 3).can_be_let_go());
    assert!(FreePart::Grabbed(h(3)).can_be_let_go());
    assert!(!FreePart::EarthCargo(h(2), 3).can_be_let_go());
    assert!(!FreePart::PlaceholderLol.can_be_let_go());
}

#[test]
fn the_grab_point_follows_the_mouse_only_while_dragging() {
    let mut p = PlayerMeta::new(5, h(0), String::from("x"), None);
    p.move_grab(7, 8);
    assert!(p.grabbed_part.is_none());
    p.grabbed_part = Some((9, 44, 1, 2));
    p.move_grab(7, 8);
    assert_eq!(p.grabbed_part, Some((9, 44, 7, 8)));
}
