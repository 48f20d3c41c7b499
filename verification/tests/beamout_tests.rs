use ship_server::beamout::{fill_endpoint, recurse_can_beamout, RecursivePartDescription};
use ship_server::codec::PartKind;

#[test]
fn endpoint_gets_the_token() {
    assert_eq!(fill_endpoint("http://api/user/^^^^/beamout", "abc"), "http://api/user/abc/beamout");
    assert_eq!(fill_endpoint("^^^^^^^^", "x"), "x^^^^");
    assert_eq!(fill_endpoint("no placeholder", "x"), "no placeholder");
}

#[test]
fn cargo_does_not_beam_out() {
    let mut ship = RecursivePartDescription {
        kind: PartKind::Core,
        attachments: vec![
            Some(RecursivePartDescription::from(PartKind::Cargo)),
            Some(RecursivePartDescription {
                kind: PartKind::Hub,
                attachments: vec![None, Some(RecursivePartDescription::from(PartKind::Cargo))],
            }),
            None,
        ],
    };
    recurse_can_beamout(&mut ship);
    assert_eq!(ship.attachments.len(), 3);
    assert!(ship.attachments[0].is_none());
    let hub = ship.attachments[1].as_ref().unwrap();
    assert_eq!(hub.kind, PartKind::Hub);
    assert_eq!(hub.attachments.len(), 2);
    assert!(hub.attachments[1].is_none());
    assert!(ship.attachments[2].is_none());
}
