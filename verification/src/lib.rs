//! Verified core of a market-tick simulator and broadcaster.
//!
//! The crate covers the logic of the system: the bijective symbol table
//! mapping instrument tickers to compact wire codes, the shared price table
//! and its per-tick update discipline, the tick schedule with its forced
//! convergence onto each instrument's close, and the batched big-endian wire
//! format. Prices travel through this crate as IEEE-754 bit patterns
//! (`u64`); the floating-point arithmetic of the stochastic model is left to
//! the driver binary, which hands each tick's computed values back to the
//! verified store.

pub mod engine;
pub mod mappings;
pub mod models;
pub mod store;
pub mod wire;

pub use engine::TickAction;
pub use mappings::TickerMapper;
pub use models::SetupError;
pub use models::Stock;
pub use models::StockMessage;
pub use models::StockResponse;
pub use store::PriceStore;
