//! Per-session mutable state: lifecycle status, the two sequence counters,
//! liveness clocks and the test-request counter.

use vstd::prelude::*;

verus! {

/// The lifecycle of a session.
#[derive(Clone, Copy, PartialEq, Eq, Structural, Debug)]
pub enum Status {
    Created,
    Connecting,
    InitiateLogon,
    ResendRequest,
    LogonReceived,
    Connected,
    Disconnecting,
    Disconnected,
    Error,
    Recovering,
}

/// The seconds elapsed from `t` to `now` on a monotonic clock, zero when
/// the clock reads earlier.
pub open spec fn spec_elapsed(now: u64, t: u64) -> int {
    if now >= t {
        now - t
    } else {
        0
    }
}

/// A session's mutable state.
pub struct SessionState {
    pub status: Status,
    pub next_outgoing_seq: i32,
    pub next_incoming_seq: i32,
    pub expected_target_seq_num: i32,
    pub last_send_time: u64,
    pub last_receive_time: u64,
    pub test_request_counter: i32,
    pub logon_timeout: u64,
    pub heartbeat_interval: u64,
    pub test_request_delay: u64,
    pub session_id: String,
}

impl SessionState {
    /// Sequence counters start at one and never leave the positive range;
    /// the test-request counter never goes negative.
    pub open spec fn wf(&self) -> bool {
        &&& self.next_outgoing_seq >= 1
        &&& self.next_incoming_seq >= 1
        &&& self.expected_target_seq_num >= 1
        &&& self.test_request_counter >= 0
    }

    /// Whether no message has arrived for longer than one heartbeat
    /// interval plus the test-request delay, read at `now`.
    pub open spec fn spec_should_send_test_request(&self, now: u64) -> bool {
        spec_elapsed(now, self.last_receive_time) > self.heartbeat_interval
            + self.test_request_delay
    }

    /// Whether the session must drop, read at `now`: a logon left pending
    /// past its timeout, or, once connected, two unanswered test requests
    /// or silence past twice the heartbeat interval.
    pub open spec fn spec_should_disconnect(&self, now: u64) -> bool {
        match self.status {
            Status::InitiateLogon => spec_elapsed(now, self.last_send_time) > self.logon_timeout,
            Status::Connected => self.test_request_counter >= 2 || spec_elapsed(
                now,
                self.last_receive_time,
            ) > 2 * self.heartbeat_interval,
            _ => false,
        }
    }

    /// Fresh state with the default tunables.
    pub fn new(session_id: &str) -> (r: SessionState)
        ensures
            r.wf(),
            r.status == Status::Created,
            r.next_outgoing_seq == 1,
            r.next_incoming_seq == 1,
            r.expected_target_seq_num == 1,
            r.last_send_time == 0,
            r.last_receive_time == 0,
            r.test_request_counter == 0,
            r.logon_timeout == 10,
            r.heartbeat_interval == 30,
            r.test_request_delay == 2,
            r.session_id@ == session_id@,
    {
        SessionState {
            status: Status::Created,
            next_outgoing_seq: 1,
            next_incoming_seq: 1,
            expected_target_seq_num: 1,
            last_send_time: 0,
            last_receive_time: 0,
            test_request_counter: 0,
            logon_timeout: 10,
            heartbeat_interval: 30,
            test_request_delay: 2,
            session_id: session_id.to_owned(),
        }
    }

    /// Fresh state with the given timeouts.
    pub fn with_config(
        session_id: &str,
        logon_timeout: u64,
        heartbeat_interval: u64,
        test_request_delay: u64,
    ) -> (r: SessionState)
        ensures
            r.wf(),
            r.status == Status::Created,
            r.next_outgoing_seq == 1,
            r.next_incoming_seq == 1,
            r.expected_target_seq_num == 1,
            r.last_send_time == 0,
            r.last_receive_time == 0,
            r.test_request_counter == 0,
            r.logon_timeout == logon_timeout,
            r.heartbeat_interval == heartbeat_interval,
            r.test_request_delay == test_request_delay,
            r.session_id@ == session_id@,
    {
        SessionState {
            status: Status::Created,
            next_outgoing_seq: 1,
            next_incoming_seq: 1,
            expected_target_seq_num: 1,
            last_send_time: 0,
            last_receive_time: 0,
            test_request_counter: 0,
            logon_timeout,
            heartbeat_interval,
            test_request_delay,
            session_id: session_id.to_owned(),
        }
    }

    pub fn set_status(&mut self, status: Status)
        ensures
            *final(self) == (SessionState { status, ..*old(self) }),
    {
        self.status = status;
    }

    pub fn status(&self) -> (r: &Status)
        ensures
            *r == self.status,
    {
        &self.status
    }

    pub fn next_outgoing_seq(&self) -> (r: i32)
        ensures
            r == self.next_outgoing_seq,
    {
        self.next_outgoing_seq
    }

    /// Advances the outbound counter by one.
    pub fn increment_outgoing_seq(&mut self)
        requires
            old(self).next_outgoing_seq < i32::MAX,
        ensures
            *final(self) == (SessionState {
                next_outgoing_seq: (old(self).next_outgoing_seq + 1) as i32,
                ..*old(self)
            }),
    {
        self.next_outgoing_seq = self.next_outgoing_seq + 1;
    }

    pub fn next_incoming_seq(&self) -> (r: i32)
        ensures
            r == self.next_incoming_seq,
    {
        self.next_incoming_seq
    }

    /// Advances the inbound counter by one.
    pub fn increment_incoming_seq(&mut self)
        requires
            old(self).next_incoming_seq < i32::MAX,
        ensures
            *final(self) == (SessionState {
                next_incoming_seq: (old(self).next_incoming_seq + 1) as i32,
                ..*old(self)
            }),
    {
        self.next_incoming_seq = self.next_incoming_seq + 1;
    }

    pub fn expected_target_seq_num(&self) -> (r: i32)
        ensures
            r == self.expected_target_seq_num,
    {
        self.expected_target_seq_num
    }

    pub fn set_expected_target_seq_num(&mut self, seq_num: i32)
        ensures
            *final(self) == (SessionState { expected_target_seq_num: seq_num, ..*old(self) }),
    {
        self.expected_target_seq_num = seq_num;
    }

    pub fn increment_test_request_counter(&mut self)
        requires
            old(self).test_request_counter < i32::MAX,
        ensures
            *final(self) == (SessionState {
                test_request_counter: (old(self).test_request_counter + 1) as i32,
                ..*old(self)
            }),
    {
        self.test_request_counter = self.test_request_counter + 1;
    }

    pub fn reset_test_request_counter(&mut self)
        ensures
            *final(self) == (SessionState { test_request_counter: 0, ..*old(self) }),
    {
        self.test_request_counter = 0;
    }

    pub fn test_request_counter(&self) -> (r: i32)
        ensures
            r == self.test_request_counter,
    {
        self.test_request_counter
    }

    /// Records a send at `now`.
    pub fn record_send_time(&mut self, now: u64)
        ensures
            *final(self) == (SessionState { last_send_time: now, ..*old(self) }),
    {
        self.last_send_time = now;
    }

    /// Records a receipt at `now`.
    pub fn record_receive_time(&mut self, now: u64)
        ensures
            *final(self) == (SessionState { last_receive_time: now, ..*old(self) }),
    {
        self.last_receive_time = now;
    }

    /// Records a send at the clock's reading.
    pub fn update_send_time(&mut self)
        ensures
            *final(self) == (SessionState {
                last_send_time: final(self).last_send_time,
                ..*old(self)
            }),
    {
        let now = crate::timestamp::now_unix_seconds();
        self.last_send_time = now;
    }

    /// Records a receipt at the clock's reading.
    pub fn update_receive_time(&mut self)
        ensures
            *final(self) == (SessionState {
                last_receive_time: final(self).last_receive_time,
                ..*old(self)
            }),
    {
        let now = crate::timestamp::now_unix_seconds();
        self.last_receive_time = now;
    }

    /// The test-request condition, read at `now`.
    pub fn should_send_test_request_at(&self, now: u64) -> (r: bool)
        ensures
            r == self.spec_should_send_test_request(now),
    {
        let elapsed: u64 = if now >= self.last_receive_time {
            now - self.last_receive_time
        } else {
            0
        };
        (elapsed as u128) > (self.heartbeat_interval as u128) + (self.test_request_delay as u128)
    }

    /// The test-request condition, read at the clock.
    pub fn should_send_test_request(&self) -> (r: bool)
        ensures
            exists|now: u64| r == self.spec_should_send_test_request(now),
    {
        let now = crate::timestamp::now_unix_seconds();
        let r = self.should_send_test_request_at(now);
        proof {
            assert(r == self.spec_should_send_test_request(now));
        }
        r
    }

    /// The disconnect condition, read at `now`.
    pub fn should_disconnect_at(&self, now: u64) -> (r: bool)
        ensures
            r == self.spec_should_disconnect(now),
    {
        match self.status {
            Status::InitiateLogon => {
                let elapsed: u64 = if now >= self.last_send_time {
                    now - self.last_send_time
                } else {
                    0
                };
                elapsed > self.logon_timeout
            },
            Status::Connected => {
                if self.test_request_counter >= 2 {
                    true
                } else {
                    let elapsed: u64 = if now >= self.last_receive_time {
                        now - self.last_receive_time
                    } else {
                        0
                    };
                    (elapsed as u128) > 2 * (self.heartbeat_interval as u128)
                }
            },
            _ => false,
        }
    }

    /// The disconnect condition, read at the clock.
    pub fn should_disconnect(&self) -> (r: bool)
        ensures
            exists|now: u64| r == self.spec_should_disconnect(now),
    {
        let now = crate::timestamp::now_unix_seconds();
        let r = self.should_disconnect_at(now);
        proof {
            assert(r == self.spec_should_disconnect(now));
        }
        r
    }

    /// Both counters return to one.
    pub fn reset_sequence_numbers(&mut self)
        ensures
            *final(self) == (SessionState {
                next_outgoing_seq: 1,
                next_incoming_seq: 1,
                expected_target_seq_num: 1,
                ..*old(self)
            }),
    {
        self.next_outgoing_seq = 1;
        self.next_incoming_seq = 1;
        self.expected_target_seq_num = 1;
    }
}

impl Clone for SessionState {
    fn clone(&self) -> (r: Self)
        ensures
            r.status == self.status,
            r.next_outgoing_seq == self.next_outgoing_seq,
            r.next_incoming_seq == self.next_incoming_seq,
            r.expected_target_seq_num == self.expected_target_seq_num,
            r.last_send_time == self.last_send_time,
            r.last_receive_time == self.last_receive_time,
            r.test_request_counter == self.test_request_counter,
            r.logon_timeout == self.logon_timeout,
            r.heartbeat_interval == self.heartbeat_interval,
            r.test_request_delay == self.test_request_delay,
            r.session_id@ == self.session_id@,
    {
        SessionState {
            status: self.status,
            next_outgoing_seq: self.next_outgoing_seq,
            next_incoming_seq: self.next_incoming_seq,
            expected_target_seq_num: self.expected_target_seq_num,
            last_send_time: self.last_send_time,
            last_receive_time: self.last_receive_time,
            test_request_counter: self.test_request_counter,
            logon_timeout: self.logon_timeout,
            heartbeat_interval: self.heartbeat_interval,
            test_request_delay: self.test_request_delay,
            session_id: self.session_id.clone(),
        }
    }
}

/// A freshly connected session never asks to disconnect at the moment it
/// connects: with its test-request counter reset, the disconnect condition
/// is false when no time has passed.
pub proof fn lemma_fresh_connected_never_disconnects(st: SessionState)
    requires
        st.status == Status::Connected,
        st.test_request_counter < 2,
    ensures
        !st.spec_should_disconnect(0),
{
    assert(spec_elapsed(0, st.last_receive_time) == 0);
}

} // verus!
