//! Transport settings. The socket and TLS plumbing itself lives outside the
//! library; these settings configure it.

use vstd::prelude::*;

verus! {

/// Settings for a session's byte transport.
pub struct TransportConfig {
    pub use_ssl: bool,
    pub cert_file: Option<String>,
    pub key_file: Option<String>,
    pub ca_file: Option<String>,
    pub verify_peer: bool,
    pub buffer_size: usize,
    pub connection_timeout_secs: u64,
}

impl TransportConfig {
    /// Plain TCP, peer verification on, a four-kilobyte buffer, and a
    /// thirty-second connection timeout.
    pub fn new_default() -> (r: TransportConfig)
        ensures
            !r.use_ssl,
            r.cert_file is None,
            r.key_file is None,
            r.ca_file is None,
            r.verify_peer,
            r.buffer_size == 4096,
            r.connection_timeout_secs == 30,
    {
        TransportConfig {
            use_ssl: false,
            cert_file: None,
            key_file: None,
            ca_file: None,
            verify_peer: true,
            buffer_size: 4096,
            connection_timeout_secs: 30,
        }
    }
}

impl Default for TransportConfig {
    fn default() -> (r: Self)
        ensures
            !r.use_ssl,
            r.cert_file is None,
            r.key_file is None,
            r.ca_file is None,
            r.verify_peer,
            r.buffer_size == 4096,
            r.connection_timeout_secs == 30,
    {
        Self::new_default()
    }
}

impl Clone for TransportConfig {
    fn clone(&self) -> (r: Self)
        ensures
            r.use_ssl == self.use_ssl,
            r.verify_peer == self.verify_peer,
            r.buffer_size == self.buffer_size,
            r.connection_timeout_secs == self.connection_timeout_secs,
    {
        TransportConfig {
            use_ssl: self.use_ssl,
            cert_file: clone_opt_string(&self.cert_file),
            key_file: clone_opt_string(&self.key_file),
            ca_file: clone_opt_string(&self.ca_file),
            verify_peer: self.verify_peer,
            buffer_size: self.buffer_size,
            connection_timeout_secs: self.connection_timeout_secs,
        }
    }
}

/// A copy of an optional string.
fn clone_opt_string(v: &Option<String>) -> (r: Option<String>)
    ensures
        r is Some == v is Some,
        r is Some ==> r->0@ == v->0@,
{
    match v {
        Some(s) => Some(s.clone()),
        None => None,
    }
}

} // verus!
