//! Latency comparison of market-data feeds.

pub mod aggregator;
pub mod calendar;
pub mod clock;
pub mod compare;
pub mod config;
pub mod connect;
pub mod content;
pub mod doc;
pub mod feed;
pub mod grpc_feed;
pub mod history;
pub mod number;
pub mod offset;
pub mod ranking;
pub mod report;
pub mod retry;
pub mod roundtrip;
pub mod search;
pub mod session;
pub mod stats;
pub mod table;
pub mod text;
