//! Decision core of a crypto-exchange gateway: subscription bookkeeping
//! with reference counts, session and position accounting, composite order
//! ids, the stream grammar, depth-book sanity, the exchange codec, signed
//! REST requests and the reconnect timers of the upstream links.
pub mod account;
pub mod binance;
pub mod chat;
pub mod depth;
pub mod dispatch;
pub mod fixed;
pub mod ids;
pub mod market;
pub mod product;
pub mod rest;
pub mod session;
pub mod stream;
pub mod tally;
pub mod text;
