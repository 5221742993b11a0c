//! A reverse proxy's routing core: route tables keyed by domain, weighted
//! round-robin selection of upstreams, and the decisions taken for each
//! incoming request.

pub mod config;
pub mod domain_map;
pub mod proxy;
pub mod request;
