//! Planning, parsing and bookkeeping logic of a throughput benchmark that
//! pits several async-runtime TCP servers against several clients.

pub mod text;
pub mod order;
pub mod config;
pub mod bench;
pub mod throughput;
pub mod stat;
pub mod run;
