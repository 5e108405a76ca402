//! Two-generator discrete-log identification (Chaum–Pedersen style):
//! the arithmetic engine, the prover's wallet, the verifier's session
//! bookkeeping and an optional credential layer.

pub mod bignat;
pub mod number_theory;
pub mod zkp;
pub mod keyed;
pub mod store;
pub mod server;
pub mod encoding;
pub mod ssi;
pub mod wallet;
