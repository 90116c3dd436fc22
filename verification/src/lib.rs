//! Atomic-swap protocol engines.
//!
//! Three deterministic state machines let two parties exchange custody of
//! value with no possibility of one side being paid while the other is not:
//! a direct variant (both sides deposit colored tokens into contract
//! custody), a hash-locked variant (release of escrowed ledger tokens is
//! gated on revealing the pre-image of a commitment), and a synchronous
//! bilateral variant (both sides' tokens live in external ledgers and are
//! settled in one atomic four-leg sequence).
//!
//! Every operation either applies fully or rejects with a [`SwapError`]
//! and leaves all state untouched.

pub mod bytes;
pub mod codec;
pub mod colored_tokens;
pub mod custody;
pub mod erc20_async;
pub mod erc20_sync;
pub mod error;
pub mod hashlock;
pub mod ledger;
pub mod registry;
pub mod state;

pub use error::{Field, SwapError};
pub use state::SwapState;
