//! Verified core of the mistake-notebook learning agent: entry-point
//! contracts, sandboxed storage paths, prompt assembly, settings patches,
//! answer checking, the event-stream parser and the in-memory stores.
pub mod text;
pub mod session;
pub mod storage;
pub mod contract;
pub mod services;
pub mod registry;
pub mod sse;
pub mod settings;
pub mod prompt;
pub mod practice;
pub mod message;
pub mod store;
pub mod mistake;
pub mod scheduler;
pub mod agent;
pub mod kernel;
pub mod guard;
pub mod upload;
pub mod dispatch;
pub mod responses;
pub mod wire;
pub mod grading;
pub mod summary;
pub mod migrate;
pub mod memfiles;
pub mod interrupt;
pub mod generate;
pub mod audit;
pub mod turn;
