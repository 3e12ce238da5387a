use lan_bet::entities::{User, Wager};
use lan_bet::network::{Packet, Request, Response};
use lan_bet::session::{Action, Event, Session};
use lan_bet::settlement::SettlementError;

fn login(session: &mut Session, name: &str, balance: u64) {
    let a = session.step(Event::Received(Packet::RequestPacket(Request::Login { user: name.to_string() })));
    assert!(matches!(a, Action::LookUpUser(ref n) if n == name));
    let a = session.step(Event::UserFound(User { name: name.to_string(), balance }));
    match a {
        Action::Send(Packet::ResponsePacket(Response::SuccessfulLogin { username, balance: b })) => {
            assert_eq!(username, name);
            assert_eq!(b, balance);
        },
        _ => panic!("expected a successful login"),
    }
}

#[test]
fn first_packet_must_be_login() {
    for first in [
        Packet::RequestPacket(Request::WhoAmI),
        Packet::RequestPacket(Request::WagerData),
        Packet::RequestPacket(Request::ResolveWager { wager_id: "w".to_string(), winning_option_id: "o".to_string() }),
        Packet::ResponsePacket(Response::Acknowledged),
        Packet::Error,
    ] {
        let mut s = Session::new();
        let a = s.step(Event::Received(first));
        assert!(matches!(a, Action::SendAndClose(Packet::Error)));
        assert!(s.is_closed());
    }
}

#[test]
fn undecodable_first_message_closes() {
    let mut s = Session::new();
    assert!(matches!(s.step(Event::Undecodable), Action::SendAndClose(Packet::Error)));
    assert!(s.is_closed());
}

#[test]
fn unknown_user_closes_the_session() {
    let mut s = Session::new();
    s.step(Event::Received(Packet::RequestPacket(Request::Login { user: "ghost".to_string() })));
    assert!(matches!(s.step(Event::UserMissing), Action::SendAndClose(Packet::Error)));
    assert!(s.is_closed());
}

#[test]
fn second_login_is_refused_and_other_sessions_go_on() {
    let mut first = Session::new();
    let mut second = Session::new();
    login(&mut first, "user1", 10);
    login(&mut second, "user2", 20);
    let a = first.step(Event::Received(Packet::RequestPacket(Request::Login { user: "user2".to_string() })));
    assert!(matches!(a, Action::SendAndClose(Packet::Error)));
    assert!(first.is_closed());
    let a = second.step(Event::Received(Packet::RequestPacket(Request::WhoAmI)));
    assert!(matches!(a, Action::Send(Packet::ResponsePacket(Response::WhoAmI(ref n))) if n == "user2"));
    assert!(!second.is_closed());
}

#[test]
fn who_am_i_answers_the_logged_in_name() {
    let mut s = Session::new();
    login(&mut s, "aidan", 2000);
    let a = s.step(Event::Received(Packet::RequestPacket(Request::WhoAmI)));
    assert!(matches!(a, Action::Send(Packet::ResponsePacket(Response::WhoAmI(ref n))) if n == "aidan"));
}

#[test]
fn wager_data_goes_through_the_store() {
    let mut s = Session::new();
    login(&mut s, "aidan", 2000);
    assert!(matches!(s.step(Event::Received(Packet::RequestPacket(Request::WagerData))), Action::FetchWagerData));
    let w = Wager { id: "w".to_string(), name: "n".to_string(), description: "d".to_string(), pot: 5, options: vec![] };
    match s.step(Event::WagersFetched(vec![w.clone()])) {
        Action::Send(Packet::ResponsePacket(Response::WagerData(ws))) => assert_eq!(ws, vec![w]),
        _ => panic!("expected wager data"),
    }
    assert!(matches!(s.step(Event::Received(Packet::RequestPacket(Request::WagerData))), Action::FetchWagerData));
    assert!(matches!(s.step(Event::BackendFailed), Action::Send(Packet::Error)));
    assert!(!s.is_closed());
}

#[test]
fn resolution_outcomes_are_reported() {
    let mut s = Session::new();
    login(&mut s, "aidan", 2000);
    let a = s.step(Event::Received(Packet::RequestPacket(Request::ResolveWager {
        wager_id: "w".to_string(),
        winning_option_id: "o".to_string(),
    })));
    assert!(matches!(a, Action::ResolveWager { ref wager_id, ref winning_option_id } if wager_id == "w" && winning_option_id == "o"));
    assert!(matches!(s.step(Event::Resolved(Ok(()))), Action::Send(Packet::ResponsePacket(Response::Acknowledged))));
    s.step(Event::Received(Packet::RequestPacket(Request::ResolveWager {
        wager_id: "w".to_string(),
        winning_option_id: "x".to_string(),
    })));
    assert!(matches!(s.step(Event::Resolved(Err(SettlementError::OptionNotFound))), Action::Send(Packet::Error)));
    assert!(!s.is_closed());
}

#[test]
fn response_from_client_is_a_violation() {
    let mut s = Session::new();
    login(&mut s, "aidan", 2000);
    let a = s.step(Event::Received(Packet::ResponsePacket(Response::Acknowledged)));
    assert!(matches!(a, Action::SendAndClose(Packet::Error)));
    assert!(s.is_closed());
}

#[test]
fn peer_closing_ends_quietly() {
    let mut s = Session::new();
    login(&mut s, "aidan", 2000);
    assert!(matches!(s.step(Event::PeerClosed), Action::Close));
    assert!(s.is_closed());
    assert!(matches!(s.step(Event::Received(Packet::RequestPacket(Request::WhoAmI))), Action::Close));
    let mut t = Session::new();
    assert!(matches!(t.step(Event::TransportFailed), Action::Close));
}
