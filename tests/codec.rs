use lan_bet::entities::{Bet, Wager, WagerOption};
use lan_bet::network::{Packet, Request, Response};
use std::collections::BTreeMap;

fn sample_wager() -> Wager {
    Wager {
        id: "w1".to_string(),
        name: "final".to_string(),
        description: "who wins the final".to_string(),
        pot: 200,
        options: vec![
            WagerOption {
                id: "o1".to_string(),
                name: "home".to_string(),
                description: "the home side".to_string(),
                bets: vec![
                    Bet { id: "b1".to_string(), user_id: "user1".to_string(), val: 100 },
                    Bet { id: "b2".to_string(), user_id: "user2".to_string(), val: 70000 },
                ],
            },
            WagerOption {
                id: "o2".to_string(),
                name: "away".to_string(),
                description: String::new(),
                bets: vec![],
            },
        ],
    }
}

fn round_trip(p: Packet) {
    let bytes = p.encode().expect("packet fits");
    assert_eq!(Packet::decode(&bytes), Some(p));
}

#[test]
fn round_trip_every_request() {
    round_trip(Packet::RequestPacket(Request::Login { user: "aidan".to_string() }));
    round_trip(Packet::RequestPacket(Request::WhoAmI));
    round_trip(Packet::RequestPacket(Request::WagerData));
    round_trip(Packet::RequestPacket(Request::ResolveWager {
        wager_id: "w1".to_string(),
        winning_option_id: "o1".to_string(),
    }));
}

#[test]
fn round_trip_every_response() {
    round_trip(Packet::ResponsePacket(Response::Acknowledged));
    round_trip(Packet::ResponsePacket(Response::SuccessfulLogin { username: "aidan".to_string(), balance: 2000 }));
    round_trip(Packet::ResponsePacket(Response::WhoAmI("aidan".to_string())));
    round_trip(Packet::ResponsePacket(Response::WagerData(vec![sample_wager(), sample_wager()])));
    round_trip(Packet::ResponsePacket(Response::WagerData(vec![])));
    round_trip(Packet::Error);
}

#[test]
fn round_trip_long_and_unicode_strings() {
    let long = "x".repeat(70_000);
    round_trip(Packet::RequestPacket(Request::Login { user: long }));
    round_trip(Packet::RequestPacket(Request::Login { user: "ünïcødé ✓ 😀".to_string() }));
    round_trip(Packet::RequestPacket(Request::Login { user: "y".repeat(40) }));
    round_trip(Packet::RequestPacket(Request::Login { user: "z".repeat(300) }));
}

#[test]
fn round_trip_integer_widths() {
    for balance in [0u64, 127, 128, 255, 256, 65535, 65536, 4294967295, 4294967296, u64::MAX] {
        round_trip(Packet::ResponsePacket(Response::SuccessfulLogin { username: "u".to_string(), balance }));
    }
}

#[test]
fn round_trip_many_wagers() {
    let wagers: Vec<Wager> = (0..20).map(|_| sample_wager()).collect();
    round_trip(Packet::ResponsePacket(Response::WagerData(wagers)));
}

#[test]
fn login_bytes_match_messagepack_layout() {
    let p = Packet::RequestPacket(Request::Login { user: "aidan".to_string() });
    let mut expected = vec![0x81, 0xad];
    expected.extend_from_slice(b"RequestPacket");
    expected.extend_from_slice(&[0x81, 0xa5]);
    expected.extend_from_slice(b"Login");
    expected.extend_from_slice(&[0x91, 0xa5]);
    expected.extend_from_slice(b"aidan");
    assert_eq!(p.encode().unwrap(), expected);
}

#[test]
fn encoding_agrees_with_rmp_serde() {
    let mut inner = BTreeMap::new();
    inner.insert("Login", ("aidan",));
    let mut outer = BTreeMap::new();
    outer.insert("RequestPacket", inner);
    let theirs = rmp_serde::to_vec(&outer).unwrap();
    let ours = Packet::RequestPacket(Request::Login { user: "aidan".to_string() }).encode().unwrap();
    assert_eq!(ours, theirs);

    assert_eq!(Packet::Error.encode().unwrap(), rmp_serde::to_vec(&"Error").unwrap());

    let mut inner = BTreeMap::new();
    inner.insert("WhoAmI", "aidan");
    let mut outer = BTreeMap::new();
    outer.insert("ResponsePacket", inner);
    let theirs = rmp_serde::to_vec(&outer).unwrap();
    let ours = Packet::ResponsePacket(Response::WhoAmI("aidan".to_string())).encode().unwrap();
    assert_eq!(ours, theirs);
}

#[test]
fn wager_data_agrees_with_rmp_serde() {
    let w = sample_wager();
    let options: Vec<(String, String, String, Vec<(String, String, u64)>)> = w
        .options
        .iter()
        .map(|o| {
            (
                o.id.clone(),
                o.name.clone(),
                o.description.clone(),
                o.bets.iter().map(|b| (b.id.clone(), b.user_id.clone(), b.val)).collect(),
            )
        })
        .collect();
    let as_tuple = vec![(w.id.clone(), w.name.clone(), w.description.clone(), w.pot, options)];
    let mut inner = BTreeMap::new();
    inner.insert("WagerData", as_tuple);
    let mut outer = BTreeMap::new();
    outer.insert("ResponsePacket", inner);
    let theirs = rmp_serde::to_vec(&outer).unwrap();
    let ours = Packet::ResponsePacket(Response::WagerData(vec![w])).encode().unwrap();
    assert_eq!(ours, theirs);
}

#[test]
fn decode_rejects_garbage() {
    assert_eq!(Packet::decode(&[]), None);
    assert_eq!(Packet::decode(&[0xc1]), None);
    assert_eq!(Packet::decode(b"hello"), None);
    let mut bytes = vec![0xa5];
    bytes.extend_from_slice(b"Nope!");
    assert_eq!(Packet::decode(&bytes), None);
}

#[test]
fn decode_rejects_truncated_and_trailing_bytes() {
    let bytes = Packet::RequestPacket(Request::WhoAmI).encode().unwrap();
    assert_eq!(Packet::decode(&bytes[..bytes.len() - 1]), None);
    let mut longer = bytes.clone();
    longer.push(0);
    assert_eq!(Packet::decode(&longer), None);
}

#[test]
fn decode_rejects_invalid_utf8() {
    let mut bytes = vec![0x81, 0xad];
    bytes.extend_from_slice(b"RequestPacket");
    bytes.extend_from_slice(&[0x81, 0xa5]);
    bytes.extend_from_slice(b"Login");
    bytes.extend_from_slice(&[0x91, 0xa2, 0xff, 0xfe]);
    assert_eq!(Packet::decode(&bytes), None);
}

#[test]
fn decode_rejects_non_shortest_integer() {
    // A balance of 5 written with a two-byte marker instead of as a fixint.
    let mut bytes = vec![0x81, 0xae];
    bytes.extend_from_slice(b"ResponsePacket");
    bytes.extend_from_slice(&[0x81, 0xaf]);
    bytes.extend_from_slice(b"SuccessfulLogin");
    bytes.extend_from_slice(&[0x92, 0xa1, b'u', 0xcc, 0x05]);
    assert_eq!(Packet::decode(&bytes), None);
    let fixed = Packet::ResponsePacket(Response::SuccessfulLogin { username: "u".to_string(), balance: 5 });
    let good = fixed.encode().unwrap();
    assert_eq!(Packet::decode(&good), Some(fixed));
}

#[test]
fn decoded_strings_keep_their_characters() {
    let p = Packet::ResponsePacket(Response::WhoAmI("héllo wörld".to_string()));
    let bytes = p.encode().unwrap();
    match Packet::decode(&bytes) {
        Some(Packet::ResponsePacket(Response::WhoAmI(name))) => assert_eq!(name, "héllo wörld"),
        other => panic!("unexpected {:?}", other),
    }
}
