//! The messages that client and server exchange, one `Packet` per transport
//! message.

use vstd::prelude::*;
use crate::entities::{Wager, WagerView, wagers_view};

verus! {

/// What a client asks of the server.
#[derive(Debug, PartialEq, Eq)]
pub enum Request {
    Login { user: String },
    WhoAmI,
    WagerData,
    ResolveWager { wager_id: String, winning_option_id: String },
}

/// What the server answers to a request.
#[derive(Debug, PartialEq, Eq)]
pub enum Response {
    /// The request was carried out and there is nothing to report.
    Acknowledged,
    SuccessfulLogin { username: String, balance: u64 },
    WhoAmI(String),
    WagerData(Vec<Wager>),
}

/// One message on the wire.
#[derive(Debug, PartialEq, Eq)]
pub enum Packet {
    RequestPacket(Request),
    ResponsePacket(Response),
    /// A failure, with no further detail.
    Error,
}

/// A request as the contracts see it.
pub enum RequestView {
    Login { user: Seq<char> },
    WhoAmI,
    WagerData,
    ResolveWager { wager_id: Seq<char>, winning_option_id: Seq<char> },
}

/// A response as the contracts see it.
pub enum ResponseView {
    Acknowledged,
    SuccessfulLogin { username: Seq<char>, balance: u64 },
    WhoAmI(Seq<char>),
    WagerData(Seq<WagerView>),
}

/// A packet as the contracts see it.
pub enum PacketView {
    RequestPacket(RequestView),
    ResponsePacket(ResponseView),
    Error,
}

impl View for Request {
    type V = RequestView;

    open spec fn view(&self) -> RequestView {
        match self {
            Request::Login { user } => RequestView::Login { user: user@ },
            Request::WhoAmI => RequestView::WhoAmI,
            Request::WagerData => RequestView::WagerData,
            Request::ResolveWager { wager_id, winning_option_id } => RequestView::ResolveWager {
                wager_id: wager_id@,
                winning_option_id: winning_option_id@,
            },
        }
    }
}

impl View for Response {
    type V = ResponseView;

    open spec fn view(&self) -> ResponseView {
        match self {
            Response::Acknowledged => ResponseView::Acknowledged,
            Response::SuccessfulLogin { username, balance } => ResponseView::SuccessfulLogin {
                username: username@,
                balance: *balance,
            },
            Response::WhoAmI(name) => ResponseView::WhoAmI(name@),
            Response::WagerData(wagers) => ResponseView::WagerData(wagers_view(wagers@)),
        }
    }
}

impl View for Packet {
    type V = PacketView;

    open spec fn view(&self) -> PacketView {
        match self {
            Packet::RequestPacket(r) => PacketView::RequestPacket(r@),
            Packet::ResponsePacket(r) => PacketView::ResponsePacket(r@),
            Packet::Error => PacketView::Error,
        }
    }
}

} // verus!
