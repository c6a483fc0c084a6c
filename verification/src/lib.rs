//! Decision logic of a transparent TCP relay that forwards redirected
//! connections through an upstream SOCKS5 proxy: destination parsing, the
//! client side of the SOCKS5 negotiation, and the per-address traffic ledger.

pub mod clock;
pub mod stats;
pub mod socks5;
pub mod addr;
pub mod config;
pub mod relay;
