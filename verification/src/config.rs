//! Engine and session configuration, immutable after construction.

use vstd::prelude::*;

use crate::error::FixError;
use crate::transport::TransportConfig;

verus! {

/// Where log lines go and which of them are written.
pub struct LogConfig {
    pub log_directory: String,
    pub log_level: String,
    pub log_events: bool,
    pub log_messages: bool,
}

/// Whether a session dials out or answers.
#[derive(Clone, Copy, PartialEq, Eq, Structural, Debug)]
pub enum SessionRole {
    Initiator,
    Acceptor,
}

impl Default for SessionRole {
    fn default() -> (r: Self)
        ensures
            r == SessionRole::Initiator,
    {
        SessionRole::Initiator
    }
}

/// One session's immutable settings.
pub struct SessionConfig {
    pub begin_string: String,
    pub sender_comp_id: String,
    pub target_comp_id: String,
    pub target_addr: String,
    pub heart_bt_int: u32,
    pub reset_on_logon: bool,
    pub reset_on_logout: bool,
    pub reset_on_disconnect: bool,
    pub transport_config: Option<TransportConfig>,
    pub role: SessionRole,
}

impl SessionConfig {
    pub fn is_initiator(&self) -> (r: bool)
        ensures
            r == (self.role == SessionRole::Initiator),
    {
        self.role == SessionRole::Initiator
    }

    pub fn is_acceptor(&self) -> (r: bool)
        ensures
            r == (self.role == SessionRole::Acceptor),
    {
        self.role == SessionRole::Acceptor
    }

    /// What a usable configuration must satisfy.
    pub open spec fn spec_valid(&self) -> bool {
        &&& self.begin_string@.len() > 0
        &&& self.sender_comp_id@.len() > 0
        &&& self.target_comp_id@.len() > 0
        &&& self.target_addr@.len() > 0
        &&& self.heart_bt_int > 0
    }

    /// Rejects empty identifiers and a zero heartbeat interval.
    pub fn validate(&self) -> (r: Result<(), FixError>)
        ensures
            match r {
                Ok(()) => self.spec_valid(),
                Err(e) => !self.spec_valid() && e is ConfigError,
            },
    {
        if self.begin_string.as_str().unicode_len() == 0 {
            return Err(FixError::ConfigError(String::from_str("begin_string cannot be empty")));
        }
        if self.sender_comp_id.as_str().unicode_len() == 0 {
            return Err(
                FixError::ConfigError(String::from_str("sender_comp_id cannot be empty")),
            );
        }
        if self.target_comp_id.as_str().unicode_len() == 0 {
            return Err(
                FixError::ConfigError(String::from_str("target_comp_id cannot be empty")),
            );
        }
        if self.target_addr.as_str().unicode_len() == 0 {
            return Err(FixError::ConfigError(String::from_str("target_addr cannot be empty")));
        }
        if self.heart_bt_int == 0 {
            return Err(
                FixError::ConfigError(
                    String::from_str("heart_bt_int must be greater than 0"),
                ),
            );
        }
        Ok(())
    }

    /// The session's identifier: sender and target joined by an underscore.
    pub fn session_id(&self) -> (r: String)
        ensures
            r@ == self.sender_comp_id@ + "_"@ + self.target_comp_id@,
    {
        let mut s = self.sender_comp_id.clone();
        proof {
            reveal_strlit("_");
        }
        s.append("_");
        s.append(self.target_comp_id.as_str());
        s
    }
}

impl Clone for SessionConfig {
    fn clone(&self) -> (r: Self)
        ensures
            r.begin_string@ == self.begin_string@,
            r.sender_comp_id@ == self.sender_comp_id@,
            r.target_comp_id@ == self.target_comp_id@,
            r.target_addr@ == self.target_addr@,
            r.heart_bt_int == self.heart_bt_int,
            r.reset_on_logon == self.reset_on_logon,
            r.reset_on_logout == self.reset_on_logout,
            r.reset_on_disconnect == self.reset_on_disconnect,
            r.role == self.role,
    {
        SessionConfig {
            begin_string: self.begin_string.clone(),
            sender_comp_id: self.sender_comp_id.clone(),
            target_comp_id: self.target_comp_id.clone(),
            target_addr: self.target_addr.clone(),
            heart_bt_int: self.heart_bt_int,
            reset_on_logon: self.reset_on_logon,
            reset_on_logout: self.reset_on_logout,
            reset_on_disconnect: self.reset_on_disconnect,
            transport_config: match &self.transport_config {
                Some(t) => Some(t.clone()),
                None => None,
            },
            role: self.role,
        }
    }
}

/// The engine's whole configuration.
pub struct EngineConfig {
    pub log_config: LogConfig,
    pub sessions: Vec<SessionConfig>,
}

impl EngineConfig {
    /// Every configured session is valid.
    pub open spec fn spec_valid(&self) -> bool {
        &&& self.sessions@.len() > 0
        &&& forall|i: int|
            0 <= i < self.sessions@.len() ==> (#[trigger] self.sessions@[i]).spec_valid()
    }

    /// Rejects an empty session list and any invalid session.
    pub fn validate(&self) -> (r: Result<(), FixError>)
        ensures
            match r {
                Ok(()) => self.spec_valid(),
                Err(e) => !self.spec_valid() && e is ConfigError,
            },
    {
        let n = self.sessions.len();
        if n == 0 {
            return Err(
                FixError::ConfigError(
                    String::from_str("At least one session must be configured"),
                ),
            );
        }
        let mut i: usize = 0;
        while i < n
            invariant
                0 <= i <= n,
                n == self.sessions@.len(),
                forall|j: int| 0 <= j < i ==> (#[trigger] self.sessions@[j]).spec_valid(),
            decreases n - i,
        {
            match self.sessions[i].validate() {
                Ok(()) => {},
                Err(e) => {
                    return Err(e);
                },
            }
            i = i + 1;
        }
        Ok(())
    }
}

} // verus!
