//! The per-connection session: a client logs in once, then issues requests
//! until it leaves. The connection task feeds each event to `Session::step`
//! and carries out the action it returns.

use vstd::prelude::*;
use crate::entities::{User, UserView, Wager, WagerView, wagers_view};
use crate::network::{Packet, PacketView, Request, RequestView, Response, ResponseView};
use crate::settlement::SettlementError;

verus! {

/// Where a session stands.
pub enum Session {
    /// Nothing received yet: the next packet must be a login.
    AwaitingLogin,
    /// The login's user is being looked up.
    LoggingIn,
    /// Logged in as `username`, ready for the next request.
    Authenticated { username: String },
    /// Waiting for the wager data that a request asked for.
    FetchingWagers { username: String },
    /// Waiting for the outcome of a resolution that a request asked for.
    Resolving { username: String },
    /// The session is over.
    Closed,
}

/// What happened on the connection or came back from the backend.
pub enum Event {
    /// A packet arrived and decoded.
    Received(Packet),
    /// A message arrived that does not decode as a packet.
    Undecodable,
    /// The peer closed the connection.
    PeerClosed,
    /// The transport failed.
    TransportFailed,
    /// The user named at login exists.
    UserFound(User),
    /// No user has the name given at login.
    UserMissing,
    /// The backend could not answer.
    BackendFailed,
    /// The wager data that was asked for.
    WagersFetched(Vec<Wager>),
    /// The outcome of a resolution.
    Resolved(Result<(), SettlementError>),
}

/// What the connection task does next.
pub enum Action {
    /// Send a packet and wait for the next event.
    Send(Packet),
    /// Send a packet, then end the session.
    SendAndClose(Packet),
    /// Ask the store for the user of this name.
    LookUpUser(String),
    /// Ask the store for every wager with its options and bets.
    FetchWagerData,
    /// Ask for the wager to be resolved in favour of the option.
    ResolveWager { wager_id: String, winning_option_id: String },
    /// End the session without sending anything.
    Close,
}

pub enum SessionView {
    AwaitingLogin,
    LoggingIn,
    Authenticated { username: Seq<char> },
    FetchingWagers { username: Seq<char> },
    Resolving { username: Seq<char> },
    Closed,
}

pub enum EventView {
    Received(PacketView),
    Undecodable,
    PeerClosed,
    TransportFailed,
    UserFound(UserView),
    UserMissing,
    BackendFailed,
    WagersFetched(Seq<WagerView>),
    Resolved(Result<(), SettlementError>),
}

pub enum ActionView {
    Send(PacketView),
    SendAndClose(PacketView),
    LookUpUser(Seq<char>),
    FetchWagerData,
    ResolveWager { wager_id: Seq<char>, winning_option_id: Seq<char> },
    Close,
}

impl View for Session {
    type V = SessionView;

    open spec fn view(&self) -> SessionView {
        match self {
            Session::AwaitingLogin => SessionView::AwaitingLogin,
            Session::LoggingIn => SessionView::LoggingIn,
            Session::Authenticated { username } => SessionView::Authenticated { username: username@ },
            Session::FetchingWagers { username } => SessionView::FetchingWagers { username: username@ },
            Session::Resolving { username } => SessionView::Resolving { username: username@ },
            Session::Closed => SessionView::Closed,
        }
    }
}

impl View for Event {
    type V = EventView;

    open spec fn view(&self) -> EventView {
        match self {
            Event::Received(p) => EventView::Received(p@),
            Event::Undecodable => EventView::Undecodable,
            Event::PeerClosed => EventView::PeerClosed,
            Event::TransportFailed => EventView::TransportFailed,
            Event::UserFound(u) => EventView::UserFound(u@),
            Event::UserMissing => EventView::UserMissing,
            Event::BackendFailed => EventView::BackendFailed,
            Event::WagersFetched(w) => EventView::WagersFetched(wagers_view(w@)),
            Event::Resolved(r) => EventView::Resolved(*r),
        }
    }
}

impl View for Action {
    type V = ActionView;

    open spec fn view(&self) -> ActionView {
        match self {
            Action::Send(p) => ActionView::Send(p@),
            Action::SendAndClose(p) => ActionView::SendAndClose(p@),
            Action::LookUpUser(name) => ActionView::LookUpUser(name@),
            Action::FetchWagerData => ActionView::FetchWagerData,
            Action::ResolveWager { wager_id, winning_option_id } => ActionView::ResolveWager {
                wager_id: wager_id@,
                winning_option_id: winning_option_id@,
            },
            Action::Close => ActionView::Close,
        }
    }
}

/// A protocol violation: answer with `Error` and end the session.
pub open spec fn refuse() -> (SessionView, ActionView) {
    (SessionView::Closed, ActionView::SendAndClose(PacketView::Error))
}

/// How a session in state `s` answers event `e`: its next state and action.
pub open spec fn transition(s: SessionView, e: EventView) -> (SessionView, ActionView) {
    match s {
        SessionView::Closed => (SessionView::Closed, ActionView::Close),
        _ => match e {
            EventView::PeerClosed | EventView::TransportFailed => (SessionView::Closed, ActionView::Close),
            _ => match s {
                SessionView::AwaitingLogin => match e {
                    EventView::Received(PacketView::RequestPacket(RequestView::Login { user })) => (
                        SessionView::LoggingIn,
                        ActionView::LookUpUser(user),
                    ),
                    _ => refuse(),
                },
                SessionView::LoggingIn => match e {
                    EventView::UserFound(u) => (
                        SessionView::Authenticated { username: u.name },
                        ActionView::Send(
                            PacketView::ResponsePacket(
                                ResponseView::SuccessfulLogin { username: u.name, balance: u.balance },
                            ),
                        ),
                    ),
                    _ => refuse(),
                },
                SessionView::Authenticated { username } => match e {
                    EventView::Received(PacketView::RequestPacket(req)) => match req {
                        RequestView::Login { .. } => refuse(),
                        RequestView::WhoAmI => (
                            SessionView::Authenticated { username },
                            ActionView::Send(PacketView::ResponsePacket(ResponseView::WhoAmI(username))),
                        ),
                        RequestView::WagerData => (
                            SessionView::FetchingWagers { username },
                            ActionView::FetchWagerData,
                        ),
                        RequestView::ResolveWager { wager_id, winning_option_id } => (
                            SessionView::Resolving { username },
                            ActionView::ResolveWager { wager_id, winning_option_id },
                        ),
                    },
                    _ => refuse(),
                },
                SessionView::FetchingWagers { username } => match e {
                    EventView::WagersFetched(w) => (
                        SessionView::Authenticated { username },
                        ActionView::Send(PacketView::ResponsePacket(ResponseView::WagerData(w))),
                    ),
                    EventView::BackendFailed => (
                        SessionView::Authenticated { username },
                        ActionView::Send(PacketView::Error),
                    ),
                    _ => refuse(),
                },
                SessionView::Resolving { username } => match e {
                    EventView::Resolved(Ok(())) => (
                        SessionView::Authenticated { username },
                        ActionView::Send(PacketView::ResponsePacket(ResponseView::Acknowledged)),
                    ),
                    EventView::Resolved(Err(_)) | EventView::BackendFailed => (
                        SessionView::Authenticated { username },
                        ActionView::Send(PacketView::Error),
                    ),
                    _ => refuse(),
                },
                SessionView::Closed => (SessionView::Closed, ActionView::Close),
            },
        },
    }
}

/// The packet a new session must start with.
pub open spec fn is_login(p: PacketView) -> bool {
    p matches PacketView::RequestPacket(RequestView::Login { .. })
}

/// A fresh session whose first message is not a login (another packet, or
/// one that does not decode) answers `Error` and ends.
pub proof fn lemma_login_gate(e: EventView)
    requires
        e matches EventView::Received(p) ==> !is_login(p),
        e is Received || e is Undecodable,
    ensures
        transition(SessionView::AwaitingLogin, e) == refuse(),
{
}

/// A logged-in session that receives a second login answers `Error` and ends.
/// The transition reads only this session's own state, so no other session changes.
pub proof fn lemma_no_relogin(username: Seq<char>, user: Seq<char>)
    ensures
        transition(
            SessionView::Authenticated { username },
            EventView::Received(PacketView::RequestPacket(RequestView::Login { user })),
        ) == refuse(),
{
}

/// A closed session stays closed, whatever happens next.
pub proof fn lemma_closed_is_final(e: EventView)
    ensures
        transition(SessionView::Closed, e) == (SessionView::Closed, ActionView::Close),
{
}

impl Session {
    /// A session on a connection that has just been accepted.
    pub fn new() -> (r: Session)
        ensures
            r@ == SessionView::AwaitingLogin,
    {
        Session::AwaitingLogin
    }

    pub fn is_closed(&self) -> (r: bool)
        ensures
            r == (self@ is Closed),
    {
        match self {
            Session::Closed => true,
            _ => false,
        }
    }

    /// Moves the session on by one event and says what to do about it.
    pub fn step(&mut self, event: Event) -> (action: Action)
        ensures
            (final(self)@, action@) == transition(old(self)@, event@),
    {
        let mut current = Session::Closed;
        core::mem::swap(self, &mut current);
        let (next, action) = match current {
            Session::Closed => (Session::Closed, Action::Close),
            Session::AwaitingLogin => match event {
                Event::PeerClosed | Event::TransportFailed => (Session::Closed, Action::Close),
                Event::Received(Packet::RequestPacket(Request::Login { user })) => (
                    Session::LoggingIn,
                    Action::LookUpUser(user),
                ),
                _ => (Session::Closed, Action::SendAndClose(Packet::Error)),
            },
            Session::LoggingIn => match event {
                Event::PeerClosed | Event::TransportFailed => (Session::Closed, Action::Close),
                Event::UserFound(u) => {
                    let username = u.name.clone();
                    (
                        Session::Authenticated { username },
                        Action::Send(
                            Packet::ResponsePacket(Response::SuccessfulLogin { username: u.name, balance: u.balance }),
                        ),
                    )
                },
                _ => (Session::Closed, Action::SendAndClose(Packet::Error)),
            },
            Session::Authenticated { username } => match event {
                Event::PeerClosed | Event::TransportFailed => (Session::Closed, Action::Close),
                Event::Received(Packet::RequestPacket(req)) => match req {
                    Request::Login { .. } => (Session::Closed, Action::SendAndClose(Packet::Error)),
                    Request::WhoAmI => {
                        let name = username.clone();
                        (
                            Session::Authenticated { username },
                            Action::Send(Packet::ResponsePacket(Response::WhoAmI(name))),
                        )
                    },
                    Request::WagerData => (Session::FetchingWagers { username }, Action::FetchWagerData),
                    Request::ResolveWager { wager_id, winning_option_id } => (
                        Session::Resolving { username },
                        Action::ResolveWager { wager_id, winning_option_id },
                    ),
                },
                _ => (Session::Closed, Action::SendAndClose(Packet::Error)),
            },
            Session::FetchingWagers { username } => match event {
                Event::PeerClosed | Event::TransportFailed => (Session::Closed, Action::Close),
                Event::WagersFetched(w) => (
                    Session::Authenticated { username },
                    Action::Send(Packet::ResponsePacket(Response::WagerData(w))),
                ),
                Event::BackendFailed => (Session::Authenticated { username }, Action::Send(Packet::Error)),
                _ => (Session::Closed, Action::SendAndClose(Packet::Error)),
            },
            Session::Resolving { username } => match event {
                Event::PeerClosed | Event::TransportFailed => (Session::Closed, Action::Close),
                Event::Resolved(Ok(())) => (
                    Session::Authenticated { username },
                    Action::Send(Packet::ResponsePacket(Response::Acknowledged)),
                ),
                Event::Resolved(Err(_)) | Event::BackendFailed => (
                    Session::Authenticated { username },
                    Action::Send(Packet::Error),
                ),
                _ => (Session::Closed, Action::SendAndClose(Packet::Error)),
            },
        };
        *self = next;
        action
    }
}

} // verus!
