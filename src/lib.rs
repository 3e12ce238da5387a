//! Backend of a small multi-client wagering service: the wire codec, the
//! per-connection session machine, the in-memory ledger behind the storage
//! actor, and the settlement of resolved wagers.

pub mod codec;
pub mod database;
pub mod entities;
pub mod lookup;
pub mod network;
pub mod session;
pub mod settlement;
pub mod wire;
