use ship_server::codec::{PartKind, ToClientMsg};
use ship_server::game::{beamed_out_notice, joined_notice, left_notice, planet_info, planet_table, unknown_command_notice, TickClock, EARTH_ID, MAX_EARTH_CARGOS, SUN_ID, TICKS_PER_EARTH_CARGO_SPAWN, TRADE_ID};
use ship_server::player::{PlayerMeta, TICKS_PER_SECOND};
use ship_server::world::PartHandle;

fn core_handle() -> PartHandle {
    PartHandle { index: 0, generation: 0 }
}

#[test]
fn power_regenerates_every_fifth_tick() {
    let mut clock = TickClock::new();
    let regens: Vec<bool> = (0..10).map(|_| clock.tick().regen_power).collect();
    assert_eq!(regens, vec![false, false, false, false, true, false, false, false, false, true]);
}

#[test]
fn a_cargo_box_appears_every_four_seconds() {
    let mut clock = TickClock::new();
    let mut spawned = Vec::new();
    for t in 1..=(2 * TICKS_PER_EARTH_CARGO_SPAWN as u32) {
        if clock.tick().spawn_earth_cargo {
            spawned.push(t);
        }
    }
    assert_eq!(spawned, vec![80, 160]);
    assert_eq!(clock.earth_cargos(), 2);
}

#[test]
fn no_box_appears_while_the_planet_is_full() {
    let mut clock = TickClock::new();
    *clock.earth_cargos_mut() = MAX_EARTH_CARGOS;
    for _ in 0..200 {
        assert!(!clock.tick().spawn_earth_cargo);
    }
    assert_eq!(clock.earth_cargos(), MAX_EARTH_CARGOS);
}

#[test]
fn a_drained_player_stops_thrusting() {
    let mut p = PlayerMeta::new(4, core_handle(), String::from("p"), None);
    p.thrust_forwards = true;
    p.thrust_clockwise = true;
    match p.stop_when_drained() {
        Some(ToClientMsg::UpdatePlayerMeta { id, thrust_forward, thrust_clockwise, grabed_part, .. }) => {
            assert_eq!(id, 4);
            assert!(!thrust_forward && !thrust_clockwise);
            assert_eq!(grabed_part, None);
        }
        _ => panic!("everyone hears it"),
    }
    assert!(!p.thrust_forwards && !p.thrust_clockwise);
    p.power = 3;
    p.thrust_backwards = true;
    assert!(p.stop_when_drained().is_none());
    assert!(p.thrust_backwards);
}

#[test]
fn cargo_is_transformed_once_a_second() {
    let mut p = PlayerMeta::new(4, core_handle(), String::from("p"), None);
    let mut due = 0;
    for _ in 0..(3 * TICKS_PER_SECOND as u32) {
        if p.cargo_transform_due() {
            due += 1;
        }
    }
    assert_eq!(due, 3);
    assert_eq!(p.ticks_til_cargo_transform, TICKS_PER_SECOND);
}

#[test]
fn thrusters_need_power() {
    let mut p = PlayerMeta::new(2, core_handle(), String::from("p"), None);
    assert!(p.set_thrusters(true, false, true, false).is_none());
    assert!(!p.thrust_forwards);
    p.power = 1;
    match p.set_thrusters(true, false, true, false) {
        Some(ToClientMsg::UpdatePlayerMeta { id, thrust_forward, thrust_backward, thrust_clockwise, .. }) => {
            assert_eq!(id, 2);
            assert!(thrust_forward && !thrust_backward && thrust_clockwise);
        }
        _ => panic!("everyone hears it"),
    }
    assert!(p.thrust_forwards && p.thrust_clockwise);
}

#[test]
fn the_planet_table_lists_twelve_planets_by_id() {
    let table = planet_table();
    assert_eq!(table.len(), 12);
    for (i, planet) in table.iter().enumerate() {
        assert_eq!(planet.id as usize, i + 1);
    }
    assert_eq!(table[0].id, SUN_ID);
    assert!(table[0].orbit_around.is_none());
    assert!(!table[0].can_beamout);
    assert_eq!(table[1].id, EARTH_ID);
    assert_eq!(table[1].orbit_around, Some(SUN_ID));
    assert_eq!(table[1].orbit_ticks, 3600 * 20 * 3);
    assert!(table[1].can_beamout);
}

#[test]
fn the_moon_upgrades_cargo_into_landing_thrusters() {
    let table = planet_table();
    let moon = table[2];
    assert_eq!(moon.orbit_around, Some(EARTH_ID));
    assert_eq!(moon.orbit_ticks, 600 * 20 * 3);
    assert!(moon.can_beamout);
    assert!(matches!(moon.cargo_upgrade, Some(PartKind::LandingThruster)));
    assert!(matches!(table[3].cargo_upgrade, Some(PartKind::Hub)));
    assert!(matches!(table[4].cargo_upgrade, Some(PartKind::SolarPanel)));
    let trade = table[11];
    assert_eq!(trade.id, TRADE_ID);
    assert_eq!(trade.orbit_ticks, table[1].orbit_ticks);
    assert!(trade.can_beamout);
    assert!(trade.cargo_upgrade.is_none());
    let beaming: Vec<u8> = table.iter().filter(|p| p.can_beamout).map(|p| p.id).collect();
    assert_eq!(beaming, vec![EARTH_ID, 3, TRADE_ID]);
}

fn chat_parts(m: ToClientMsg) -> (String, String, String) {
    match m {
        ToClientMsg::ChatMessage { username, msg, color } => (username, msg, color),
        _ => panic!("not a chat line"),
    }
}

#[test]
fn coming_and_going_are_announced_by_the_server() {
    let name = String::from("alice");
    assert_eq!(
        chat_parts(joined_notice(&name)),
        (String::from("Server"), String::from("alice joined the game"), String::from("#e270ff"))
    );
    assert_eq!(
        chat_parts(left_notice(&name)),
        (String::from("Server"), String::from("alice left the game"), String::from("#e270ff"))
    );
    assert_eq!(
        chat_parts(beamed_out_notice(&name)),
        (String::from("Server"), String::from("alice has left the game"), String::from("#e270ff"))
    );
    assert_eq!(chat_parts(joined_notice(&String::new())).1, String::from(" joined the game"));
}

#[test]
fn an_unknown_command_is_refused_in_red() {
    assert_eq!(
        chat_parts(unknown_command_notice()),
        (String::from("Server"), String::from("You cannot use that command"), String::from("#FF0000"))
    );
}

#[test]
fn planets_are_found_by_id() {
    assert!(planet_info(0).is_none());
    assert!(planet_info(13).is_none());
    let earth = planet_info(EARTH_ID).expect("the home planet");
    assert_eq!(earth.id, EARTH_ID);
    assert!(earth.can_beamout);
    let mars = planet_info(4).expect("mars");
    assert!(!mars.can_beamout);
    assert!(matches!(mars.cargo_upgrade, Some(PartKind::Hub)));
    assert!(!planet_info(SUN_ID).expect("the sun").can_beamout);
}
