//! Error kinds surfaced by the engine's public operations.

use vstd::prelude::*;

verus! {

/// The error kinds of the engine. Codec and validator failures are
/// `ParseError`; persistence failures are `StoreError`; the remaining kinds
/// are reported by the unverified plumbing around the library.
#[derive(Debug)]
pub enum FixError {
    ParseError(String),
    SessionError(String),
    ConfigError(String),
    TransportError(String),
    StoreError(String),
    IoError(String),
    SerializationError(String),
    SslError(String),
    ConnectionError(String),
    CertificateError(String),
    SessionNotFound(String),
}

impl FixError {
    /// The text carried by the error, without the kind prefix.
    pub fn detail(&self) -> (r: &String)
        ensures
            r@ == self.spec_detail(),
    {
        match self {
            FixError::ParseError(m) => m,
            FixError::SessionError(m) => m,
            FixError::ConfigError(m) => m,
            FixError::TransportError(m) => m,
            FixError::StoreError(m) => m,
            FixError::IoError(m) => m,
            FixError::SerializationError(m) => m,
            FixError::SslError(m) => m,
            FixError::ConnectionError(m) => m,
            FixError::CertificateError(m) => m,
            FixError::SessionNotFound(m) => m,
        }
    }

    pub open spec fn spec_detail(&self) -> Seq<char> {
        match self {
            FixError::ParseError(m) => m@,
            FixError::SessionError(m) => m@,
            FixError::ConfigError(m) => m@,
            FixError::TransportError(m) => m@,
            FixError::StoreError(m) => m@,
            FixError::IoError(m) => m@,
            FixError::SerializationError(m) => m@,
            FixError::SslError(m) => m@,
            FixError::ConnectionError(m) => m@,
            FixError::CertificateError(m) => m@,
            FixError::SessionNotFound(m) => m@,
        }
    }

    /// A readable rendering, in place of a `Display` implementation.
    pub fn describe(&self) -> (r: String)
        ensures
            r@ == self.spec_describe(),
    {
        let prefix: &str = match self {
            FixError::ParseError(_) => "Parse error: ",
            FixError::SessionError(_) => "Session error: ",
            FixError::ConfigError(_) => "Config error: ",
            FixError::TransportError(_) => "Transport error: ",
            FixError::StoreError(_) => "Store error: ",
            FixError::IoError(_) => "IO error: ",
            FixError::SerializationError(_) => "Serialization error: ",
            FixError::SslError(_) => "SSL error: ",
            FixError::ConnectionError(_) => "Connection error: ",
            FixError::CertificateError(_) => "Certificate error: ",
            FixError::SessionNotFound(_) => "Session not found: ",
        };
        let mut out = String::from_str(prefix);
        out.append(self.detail().as_str());
        out
    }

    pub open spec fn spec_describe(&self) -> Seq<char> {
        self.spec_prefix() + self.spec_detail()
    }

    pub open spec fn spec_prefix(&self) -> Seq<char> {
        match self {
            FixError::ParseError(_) => "Parse error: "@,
            FixError::SessionError(_) => "Session error: "@,
            FixError::ConfigError(_) => "Config error: "@,
            FixError::TransportError(_) => "Transport error: "@,
            FixError::StoreError(_) => "Store error: "@,
            FixError::IoError(_) => "IO error: "@,
            FixError::SerializationError(_) => "Serialization error: "@,
            FixError::SslError(_) => "SSL error: "@,
            FixError::ConnectionError(_) => "Connection error: "@,
            FixError::CertificateError(_) => "Certificate error: "@,
            FixError::SessionNotFound(_) => "Session not found: "@,
        }
    }
}

} // verus!
