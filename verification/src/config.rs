use vstd::prelude::*;

use crate::domain_map::DomainMap;

verus! {

/// `std::path::PathBuf`, carried through the TLS settings as an opaque value.
#[verifier::external_type_specification]
#[verifier::external_body]
pub struct ExPathBuf(std::path::PathBuf);

/// The proxy's configuration: where it listens and, for each domain, the
/// upstreams that serve it.
#[derive(Debug, Clone)]
pub struct ProxyConfig {
    pub http_listen: String,
    pub https_listen: Option<String>,
    pub routes: DomainMap<ProxyRouteConfig>,
}

/// The configuration of one domain's route.
#[derive(Debug, Clone)]
pub struct ProxyRouteConfig {
    pub upstreams: Vec<UpstreamEntry>,
    pub tls: Option<TlsEntry>,
}

/// A backend address (`host:port`) and its relative weight.
#[derive(Debug, Clone)]
pub struct UpstreamEntry {
    pub address: String,
    pub weight: u32,
}

/// TLS settings of a route: certificate files, or an e-mail for automatic provisioning.
#[derive(Debug, Clone)]
pub struct TlsEntry {
    pub cert_path: Option<std::path::PathBuf>,
    pub key_path: Option<std::path::PathBuf>,
    pub acme_email: Option<String>,
}

} // verus!
