//! OneBarrier core: a deterministic-replay replication engine over a totally
//! ordered op stream, with the replicated key-value state machine, its wire and
//! snapshot codecs, the durable-log record format, request-protocol logic and
//! a decision procedure for register linearizability.

pub mod wire;
pub mod text;
pub mod sorted;
pub mod state;
pub mod engine;
pub mod durable;
pub mod linearizability;
pub mod resp;
pub mod server;
pub mod memcache;
pub mod streamlog;
pub mod txn;
pub mod http;
pub mod cluster;
pub mod bench;
pub mod sim;
