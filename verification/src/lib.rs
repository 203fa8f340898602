//! A single-use, path-addressed upload-token service: a token ledger with a
//! derived lifecycle state machine, an opaque blob-locator codec shared by the
//! storage backends, an upload orchestrator, and a retention sweeper.

pub mod clock;
pub mod digits;
pub mod gen;
pub mod ledger;
pub mod memstore;
pub mod orchestrator;
pub mod serve;
pub mod store;
pub mod sweeper;
