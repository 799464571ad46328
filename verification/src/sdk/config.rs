//! SDK configuration.

use vstd::prelude::*;

verus! {

/// Configuration for the client SDK.
#[derive(Debug, Clone)]
pub struct SdkConfig {
    /// State node endpoint URL.
    pub node_endpoint: String,
    /// Optional mTLS client certificate path.
    pub tls_cert_path: Option<String>,
    /// Request timeout in milliseconds.
    pub timeout_ms: u64,
}

impl Default for SdkConfig {
    /// `https://localhost:9090`, no client certificate, 5000 ms.
    fn default() -> (r: Self)
        ensures
            r.node_endpoint@ == "https://localhost:9090"@,
            r.tls_cert_path is None,
            r.timeout_ms == 5000,
    {
        SdkConfig { node_endpoint: String::from_str("https://localhost:9090"), tls_cert_path: None, timeout_ms: 5000 }
    }
}

} // verus!
