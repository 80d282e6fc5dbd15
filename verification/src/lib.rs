//! Verified core of an L7 HTTP gateway.
#![allow(unused_imports)]

pub mod address;
pub mod backend;
pub mod circuit_breaker;
pub mod cli;
pub mod filters;
pub mod forwarder;
pub mod hash;
pub mod headers;
pub mod health_checker;
pub mod http1_pool;
pub mod http2_pool;
pub mod listener_manager;
pub mod maglev;
pub mod matching;
pub mod mcp;
pub mod metrics;
pub mod prefix_tree;
pub mod protocol;
pub mod query;
pub mod rate_limiter;
pub mod request_handler;
pub mod retry;
pub mod router;
pub mod routes;
pub mod server;
pub mod table;
pub mod text;
pub mod time;
pub mod tls;
pub mod worker;
