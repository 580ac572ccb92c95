//! Network front-end for a multi-user, line-oriented text service.
//!
//! `telnet` is the byte-level protocol codec; `net` is the dispatcher:
//! the connection table, the identity lifecycle, and the rules that turn
//! application responses into table updates and outbound deliveries.

pub mod net;
pub mod telnet;
