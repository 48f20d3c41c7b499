use ship_server::storage7573::{planet_contact, planet_in_pair, Storage128, Storage7573};

#[test]
fn planet_tag_roundtrips() {
    let v = Storage7573::Planet(7).into();
    assert_eq!(v, 1 + 7 * 256);
    assert_eq!(Storage7573::from(v), Storage7573::Planet(7));
}

#[test]
fn player_part_tag_roundtrips() {
    let v = Storage7573::PartOfPlayer(0x1234).into();
    assert_eq!(v, 2 + 0x1234 * 256);
    assert_eq!(Storage7573::from(v), Storage7573::PartOfPlayer(0x1234));
}

#[test]
fn unknown_tags_are_invalid() {
    assert_eq!(Storage7573::from(0), Storage7573::Invalid);
    assert_eq!(Storage7573::from(3), Storage7573::Invalid);
}

#[test]
fn planet_id_of_a_planet() {
    assert_eq!(Storage7573::Planet(4).planet_id(), 4);
}

#[test]
fn storage_bytes_are_little_endian() {
    let mut s = Storage128::from(0);
    s.id_u8_mut(2);
    s.storage_u16_mut(0xABCD);
    assert_eq!(s.id_u8(), 2);
    assert_eq!(s.storage_u16(), 0xABCD);
    assert_eq!(s.storage_u8(), 0xCD);
    s.storage_u8_mut(0x11);
    assert_eq!(s.storage_u16(), 0xAB11);
    assert_eq!(s.into(), 0xAB1102);
}

#[test]
fn contacts_between_planets_and_parts() {
    let planet = Storage7573::Planet(3);
    let part = Storage7573::PartOfPlayer(9);
    assert_eq!(planet_contact(&planet, &part), Some((3, 9)));
    assert_eq!(planet_contact(&part, &planet), Some((3, 9)));
    assert_eq!(planet_contact(&planet, &Storage7573::Planet(4)), None);
    assert_eq!(planet_contact(&part, &Storage7573::Invalid), None);
    assert_eq!(planet_in_pair(&planet, &part), Some((3, false)));
    assert_eq!(planet_in_pair(&Storage7573::Invalid, &planet), Some((3, true)));
    assert_eq!(planet_in_pair(&planet, &Storage7573::Planet(4)), None);
}
