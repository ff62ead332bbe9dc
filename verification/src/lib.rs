//! A minimal ledger-style key/value account engine.
//!
//! Each account holds a fixed-size binary record encoding an ordered
//! string-to-string map.  A small set of instructions (initialize, mint,
//! transfer, burn, each with an optional fee-charging variant) mutate that
//! record under strict ownership and atomicity rules.

pub mod account_state;
pub mod bytestr;
pub mod error;
pub mod instruction;
pub mod keys_db;
pub mod processor;

pub use error::SampleError;
