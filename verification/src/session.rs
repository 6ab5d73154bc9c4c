//! The session protocol machine: logon, liveness, sequence-number
//! reconciliation with gap detection and resend, and orderly teardown.
//! The machine is driven with parsed messages and clock readings; the
//! transport around it performs the returned actions.

pub mod state;

use vstd::prelude::*;

use crate::config::SessionConfig;
use crate::error::FixError;
use crate::message::field;
use crate::message::validator::{spec_validate, MessageValidator};
use crate::message::wire::wf_pair;
use crate::message::Message;
use crate::session::state::{SessionState, Status};
use crate::store::MessageStore;
use crate::text::{spec_parse_i32, u64_to_string};
use crate::timestamp::unix_to_wire_timestamp;

verus! {

/// What the transport around the machine must do next.
pub enum SessionAction {
    /// Write this message to the peer.
    Send(Message),
    /// Hand this message to the application layer.
    Deliver(Message),
    /// Close the transport.
    Disconnect,
}

/// The sequence number a message carries, read as an integer.
pub open spec fn spec_msg_seq(m: &Message) -> Option<int> {
    if m.field_map().contains_key(34) {
        spec_parse_i32(m.field_map()[34])
    } else {
        None
    }
}

/// The session identifier a configuration denotes: sender and target
/// joined by an underscore.
pub open spec fn spec_session_id_of(c: SessionConfig) -> Seq<char> {
    c.sender_comp_id@ + "_"@ + c.target_comp_id@
}

/// An administrative message type: logon, heartbeat, test request, resend
/// request, sequence reset or logout.
pub open spec fn spec_admin_type(mt: Seq<char>) -> bool {
    mt == "A"@ || mt == "0"@ || mt == "1"@ || mt == "2"@ || mt == "4"@ || mt == "5"@
}

/// Everything one inbound message does to the machine, the store and the
/// action list: rejection counting, sequence reconciliation, and the
/// dispatch effects of each administrative type.
pub open spec fn spec_handle_effects(
    pre: Session,
    post: Session,
    spre: MessageStore,
    spost: MessageStore,
    m: &Message,
    now: u64,
    r: Seq<SessionAction>,
) -> bool {
    let sid = spec_session_id_of(pre.config);
    let mt = m.spec_msg_type();
    let e = pre.spec_state().next_incoming_seq as int;
    &&& // A rejected message: discarded and counted, the store untouched;
    // the third reject in a row is fatal.
    (!spec_validate(m) ==> {
        &&& post.spec_invalid_frames() == pre.spec_invalid_frames() + 1
        &&& (pre.spec_invalid_frames() + 1 < 3 ==> post.spec_state() == pre.spec_state())
        &&& (pre.spec_invalid_frames() + 1 >= 3 ==> post.spec_state() == (SessionState {
            status: Status::Error,
            ..pre.spec_state()
        }))
        &&& r.len() == 0
        &&& spost == spre
    })
    &&& // A valid message clears the reject run.
    (spec_validate(m) ==> post.spec_invalid_frames() == 0)
    &&& // A sequence reset leaves the store alone and sends nothing.
    (spec_validate(m) && mt == "4"@ ==> {
        &&& spost == spre
        &&& r.len() == 0
        &&& post.spec_state().last_receive_time == now
    })
    &&& // A sequence reset's new number takes effect at once.
    (spec_validate(m) && mt == "4"@ && m.field_map().contains_key(36) && (spec_parse_i32(
        m.field_map()[36],
    ) matches Some(k) && k >= 1) ==> post.spec_state().next_incoming_seq as int == spec_parse_i32(
        m.field_map()[36],
    )->0)
    &&& // The expected number: accepted, the counter advanced by exactly one.
    (spec_validate(m) && mt != "4"@ && spec_msg_seq(m) == Some(e) ==> {
        &&& post.spec_state().next_incoming_seq == pre.spec_state().next_incoming_seq + 1
        &&& post.spec_state().test_request_counter == 0
        &&& post.spec_state().last_receive_time == now
    })
    &&& // A logon connects the session; the reset flag, where configured,
    // truncates the session's log; an answering acceptor replies with its
    // own logon.
    (spec_validate(m) && mt == "A"@ && spec_msg_seq(m) == Some(e) ==> {
        &&& post.spec_state().status == Status::Connected
        &&& (pre.config.reset_on_logon && m.field_map().contains_key(141) && m.field_map()[141]
            == "Y"@ ==> spost.spec_entries(sid) == Seq::<crate::store::StoredEntry>::empty()
            && spost.spec_next_seq(sid) == 1)
        &&& (!(pre.config.reset_on_logon && m.field_map().contains_key(141)
            && m.field_map()[141] == "Y"@) ==> spost == spre)
        &&& (pre.config.role == crate::config::SessionRole::Acceptor && pre.spec_state().status
            != Status::Connected ==> r.len() == 1 && (r[0] matches SessionAction::Send(lm)
            && lm.spec_msg_type() == "A"@ && (pre.config.reset_on_logon
            ==> lm.field_map().contains_key(141) && lm.field_map()[141] == "Y"@)))
        &&& (!(pre.config.role == crate::config::SessionRole::Acceptor && pre.spec_state().status
            != Status::Connected) ==> r.len() == 0)
    })
    &&& // A test request is answered with one heartbeat echoing its id.
    (spec_validate(m) && mt == "1"@ && spec_msg_seq(m) == Some(e) ==> {
        &&& spost == spre
        &&& r.len() == 1
        &&& (r[0] matches SessionAction::Send(hb) && hb.spec_msg_type() == "0"@ && (
        m.field_map().contains_key(112) ==> hb.field_map().contains_key(112)
            && hb.field_map()[112] == m.field_map()[112]))
    })
    &&& // A heartbeat only clears the counter.
    (spec_validate(m) && mt == "0"@ && spec_msg_seq(m) == Some(e) ==> spost == spre && r.len()
        == 0)
    &&& // A logout is echoed, the transport closed, the session done.
    (spec_validate(m) && mt == "5"@ && spec_msg_seq(m) == Some(e) ==> {
        &&& spost == spre
        &&& post.spec_state().status == Status::Disconnected
        &&& r.len() == 2
        &&& (r[0] matches SessionAction::Send(lo) && lo.spec_msg_type() == "5"@)
        &&& r[1] is Disconnect
    })
    &&& // A resend request only replays: every action is a send, the store
    // is read, not written.
    (spec_validate(m) && mt == "2"@ && spec_msg_seq(m) == Some(e) ==> spost == spre && forall|
        k: int,
    | 0 <= k < r.len() ==> r[k] is Send)
    &&& // An application message is handed over and persisted under its
    // number, unless the store's version space is exhausted.
    (spec_validate(m) && !spec_admin_type(mt) && spec_msg_seq(m) == Some(e) ==> {
        &&& r.len() == 1
        &&& (r[0] matches SessionAction::Deliver(d) && d.field_map() == m.field_map()
            && d.spec_msg_type() == mt)
        &&& ((match spre.spec_tx(sid) {
            Some(tx) => spost.spec_tx(sid) matches Some(tx2) && tx2.version == tx.version
                && tx2.pending@.len() == tx.pending@.len() + 1 && tx2.pending@[tx.pending@.len() as int].0 as int
                == e && tx2.pending@[tx.pending@.len() as int].1.field_map() == m.field_map(),
            None => spost.spec_entries(sid).len() == spre.spec_entries(sid).len() + 1
                && spost.spec_entries(sid).last().seq as int == e && spost.spec_entries(
                sid,
            ).last().msg.field_map() == m.field_map(),
        }) || spost == spre)
    })
    &&& // A number ahead: the counter stands still, the store is untouched,
    // and one resend request spans exactly the gap.
    (spec_validate(m) && mt != "4"@ && (spec_msg_seq(m) matches Some(s) && s > e) ==> {
        &&& post.spec_state().next_incoming_seq == pre.spec_state().next_incoming_seq
        &&& post.spec_state().status == Status::ResendRequest
        &&& post.spec_state().last_receive_time == now
        &&& spost == spre
        &&& r.len() == 1
        &&& (r[0] matches SessionAction::Send(rr) && rr.spec_msg_type() == "2"@
            && rr.field_map().contains_key(7) && rr.field_map()[7] == crate::text::dec_digits_of(
            e as nat,
        ) && rr.field_map().contains_key(16) && rr.field_map()[16] == crate::text::dec_digits_of(
            spec_msg_seq(m)->0 as nat,
        ))
    })
    &&& // A number behind without the duplicate flag is fatal; the store is
    // untouched.
    (spec_validate(m) && mt != "4"@ && (spec_msg_seq(m) matches Some(s) && s < e) && !(
    m.field_map().contains_key(43) && m.field_map()[43] == "Y"@) ==> post.spec_state().status
        == Status::Error && spost == spre && r.len() == 0)
    &&& // A duplicate behind is tolerated silently.
    (spec_validate(m) && mt != "4"@ && (spec_msg_seq(m) matches Some(s) && s < e)
        && m.field_map().contains_key(43) && m.field_map()[43] == "Y"@ ==> post.spec_state()
        == pre.spec_state() && spost == spre && r.len() == 0)
}

/// The protocol machine for one logical session.
pub struct Session {
    pub config: SessionConfig,
    pub state: SessionState,
    pub invalid_frame_count: u32,
}

impl Session {
    pub open spec fn spec_state(&self) -> SessionState {
        self.state
    }

    pub open spec fn spec_invalid_frames(&self) -> int {
        self.invalid_frame_count as int
    }

    pub open spec fn wf(&self) -> bool {
        self.spec_state().wf()
    }

    /// A fresh machine for a configuration: created, both counters at one,
    /// a ten-second logon timeout and a two-second test-request delay.
    pub fn new(config: SessionConfig) -> (r: Session)
        ensures
            r.wf(),
            r.spec_state().status == Status::Created,
            r.spec_state().next_outgoing_seq == 1,
            r.spec_state().next_incoming_seq == 1,
            r.spec_state().test_request_counter == 0,
            r.spec_state().heartbeat_interval == config.heart_bt_int as u64,
            r.spec_invalid_frames() == 0,
    {
        let session_id = config.session_id();
        let hb = config.heart_bt_int;
        let state = SessionState::with_config(session_id.as_str(), 10, hb as u64, 2);
        Session { config, state, invalid_frame_count: 0 }
    }

    /// The session's identifier: sender and target joined by an underscore.
    pub fn session_id(&self) -> (r: String)
        ensures
            r@ == self.config.sender_comp_id@ + "_"@ + self.config.target_comp_id@,
    {
        self.config.session_id()
    }

    /// A copy of the current state.
    pub fn get_state(&self) -> (r: SessionState)
        ensures
            r.status == self.spec_state().status,
            r.next_outgoing_seq == self.spec_state().next_outgoing_seq,
            r.next_incoming_seq == self.spec_state().next_incoming_seq,
            r.test_request_counter == self.spec_state().test_request_counter,
            r.last_send_time == self.spec_state().last_send_time,
            r.last_receive_time == self.spec_state().last_receive_time,
            r.heartbeat_interval == self.spec_state().heartbeat_interval,
            r.test_request_delay == self.spec_state().test_request_delay,
            r.logon_timeout == self.spec_state().logon_timeout,
    {
        self.state.clone()
    }

    pub fn is_connected(&self) -> (r: bool)
        ensures
            r == (self.spec_state().status == Status::Connected),
    {
        self.state.status == Status::Connected
    }

    /// Moves the machine to a new lifecycle status.
    pub fn set_status(&mut self, status: Status)
        ensures
            final(self).spec_state() == (SessionState { status, ..old(self).spec_state() }),
            final(self).config == old(self).config,
            final(self).spec_invalid_frames() == old(self).spec_invalid_frames(),
    {
        self.state.set_status(status);
    }

    /// Builds the outbound logon: sequence number one, the configured
    /// identity, encryption off, the configured heartbeat interval, and
    /// the reset flag exactly when the session resets on logon.
    pub fn create_logon_message(&self, now: u64) -> (r: Message)
        requires
            now < 253402300800,
        ensures
            r.wf(),
            r.spec_msg_type() == "A"@,
            r.field_map().contains_key(34) && r.field_map()[34] == "1"@,
            r.field_map().contains_key(52) && r.field_map()[52]
                == crate::timestamp::wire_timestamp_of(now),
            r.field_map().contains_key(98) && r.field_map()[98] == "0"@,
            r.field_map().contains_key(108) && r.field_map()[108] == crate::text::dec_digits_of(
                self.config.heart_bt_int as nat,
            ),
            crate::message::wire::wf_value(self.config.begin_string@)
                ==> r.field_map().contains_key(8) && r.field_map()[8]
                == self.config.begin_string@,
            crate::message::wire::wf_value(self.config.sender_comp_id@)
                ==> r.field_map().contains_key(49) && r.field_map()[49]
                == self.config.sender_comp_id@,
            crate::message::wire::wf_value(self.config.target_comp_id@)
                ==> r.field_map().contains_key(56) && r.field_map()[56]
                == self.config.target_comp_id@,
            self.config.reset_on_logon ==> r.field_map().contains_key(141) && r.field_map()[141]
                == "Y"@,
            !self.config.reset_on_logon ==> !r.field_map().contains_key(141),
    {
        let mut msg = Message::new("A");
        proof {
            reveal_strlit("A");
            reveal_strlit("0");
            reveal_strlit("Y");
            assert(!msg.field_map().contains_key(141));
        }
        put_field(&mut msg, field::BEGIN_STRING, self.config.begin_string.clone());
        proof {
            if crate::message::wire::wf_value(self.config.begin_string@) {
                assert(wf_pair((8int, self.config.begin_string@)));
                assert(msg.field_map().contains_key(8) && msg.field_map()[8]
                    == self.config.begin_string@);
            }
        }
        put_field(&mut msg, field::SENDER_COMP_ID, self.config.sender_comp_id.clone());
        proof {
            if crate::message::wire::wf_value(self.config.begin_string@) {
                assert(msg.field_map().contains_key(8) && msg.field_map()[8]
                    == self.config.begin_string@);
            }
            if crate::message::wire::wf_value(self.config.sender_comp_id@) {
                assert(wf_pair((49int, self.config.sender_comp_id@)));
                assert(msg.field_map().contains_key(49) && msg.field_map()[49]
                    == self.config.sender_comp_id@);
            }
        }
        put_field(&mut msg, field::TARGET_COMP_ID, self.config.target_comp_id.clone());
        proof {
            if crate::message::wire::wf_value(self.config.begin_string@) {
                assert(msg.field_map().contains_key(8) && msg.field_map()[8]
                    == self.config.begin_string@);
            }
            if crate::message::wire::wf_value(self.config.sender_comp_id@) {
                assert(msg.field_map().contains_key(49) && msg.field_map()[49]
                    == self.config.sender_comp_id@);
            }
            if crate::message::wire::wf_value(self.config.target_comp_id@) {
                assert(wf_pair((56int, self.config.target_comp_id@)));
                assert(msg.field_map().contains_key(56) && msg.field_map()[56]
                    == self.config.target_comp_id@);
            }
        }
        let stamp = unix_to_wire_timestamp(now);
        proof {
            assert(wf_pair((52int, stamp@)));
        }
        must_put_field(&mut msg, field::SENDING_TIME, stamp);
        proof {
            if crate::message::wire::wf_value(self.config.begin_string@) {
                assert(msg.field_map().contains_key(8) && msg.field_map()[8]
                    == self.config.begin_string@);
            }
            if crate::message::wire::wf_value(self.config.sender_comp_id@) {
                assert(msg.field_map().contains_key(49) && msg.field_map()[49]
                    == self.config.sender_comp_id@);
            }
            if crate::message::wire::wf_value(self.config.target_comp_id@) {
                assert(msg.field_map().contains_key(56) && msg.field_map()[56]
                    == self.config.target_comp_id@);
            }
            assert(wf_pair((98int, "0"@)));
            crate::text::lemma_dec_digits_wf(self.config.heart_bt_int as nat);
            assert(wf_pair((
                108int,
                crate::text::dec_digits_of(self.config.heart_bt_int as nat),
            ))) by {
                assert(forall|i: int|
                    0 <= i < crate::text::dec_digits_of(self.config.heart_bt_int as nat).len()
                        ==> crate::message::wire::is_value_char(
                        #[trigger] crate::text::dec_digits_of(self.config.heart_bt_int as nat)[i],
                    ));
            }
            assert(wf_pair((141int, "Y"@)));
        }
        must_put_field(&mut msg, field::ENCRYPT_METHOD, String::from_str("0"));
        proof {
            assert(msg.field_map().contains_key(52) && msg.field_map()[52]
                == crate::timestamp::wire_timestamp_of(now));
            if crate::message::wire::wf_value(self.config.begin_string@) {
                assert(msg.field_map().contains_key(8) && msg.field_map()[8]
                    == self.config.begin_string@);
            }
            if crate::message::wire::wf_value(self.config.sender_comp_id@) {
                assert(msg.field_map().contains_key(49) && msg.field_map()[49]
                    == self.config.sender_comp_id@);
            }
            if crate::message::wire::wf_value(self.config.target_comp_id@) {
                assert(msg.field_map().contains_key(56) && msg.field_map()[56]
                    == self.config.target_comp_id@);
            }
        }
        must_put_field(&mut msg, field::HEART_BT_INT, u64_to_string(self.config.heart_bt_int as u64));
        proof {
            assert(msg.field_map().contains_key(52) && msg.field_map()[52]
                == crate::timestamp::wire_timestamp_of(now));
            assert(msg.field_map().contains_key(98) && msg.field_map()[98] == "0"@);
            assert(msg.field_map().contains_key(34) && msg.field_map()[34] == "1"@);
            assert(!self.config.reset_on_logon ==> !msg.field_map().contains_key(141));
            if crate::message::wire::wf_value(self.config.begin_string@) {
                assert(msg.field_map().contains_key(8) && msg.field_map()[8]
                    == self.config.begin_string@);
            }
            if crate::message::wire::wf_value(self.config.sender_comp_id@) {
                assert(msg.field_map().contains_key(49) && msg.field_map()[49]
                    == self.config.sender_comp_id@);
            }
            if crate::message::wire::wf_value(self.config.target_comp_id@) {
                assert(msg.field_map().contains_key(56) && msg.field_map()[56]
                    == self.config.target_comp_id@);
            }
        }
        if self.config.reset_on_logon {
            must_put_field(&mut msg, field::RESET_SEQ_NUM_FLAG, String::from_str("Y"));
            proof {
                assert(msg.field_map().contains_key(52) && msg.field_map()[52]
                    == crate::timestamp::wire_timestamp_of(now));
                assert(msg.field_map().contains_key(98) && msg.field_map()[98] == "0"@);
                assert(msg.field_map().contains_key(108) && msg.field_map()[108]
                    == crate::text::dec_digits_of(self.config.heart_bt_int as nat));
                assert(msg.field_map().contains_key(34) && msg.field_map()[34] == "1"@);
                if crate::message::wire::wf_value(self.config.begin_string@) {
                    assert(msg.field_map().contains_key(8) && msg.field_map()[8]
                        == self.config.begin_string@);
                }
                if crate::message::wire::wf_value(self.config.sender_comp_id@) {
                    assert(msg.field_map().contains_key(49) && msg.field_map()[49]
                        == self.config.sender_comp_id@);
                }
                if crate::message::wire::wf_value(self.config.target_comp_id@) {
                    assert(msg.field_map().contains_key(56) && msg.field_map()[56]
                        == self.config.target_comp_id@);
                }
            }
        }
        msg
    }

    /// Builds the outbound logout: sequence number one until the outbound
    /// path assigns the real one, the configured identity, and the
    /// sending time of `now`.
    pub fn create_logout_message(&self, now: u64) -> (r: Message)
        requires
            now < 253402300800,
        ensures
            r.wf(),
            r.spec_msg_type() == "5"@,
            r.field_map().contains_key(34) && r.field_map()[34] == "1"@,
            r.field_map().contains_key(52) && r.field_map()[52]
                == crate::timestamp::wire_timestamp_of(now),
            crate::message::wire::wf_value(self.config.sender_comp_id@)
                ==> r.field_map().contains_key(49) && r.field_map()[49]
                == self.config.sender_comp_id@,
            crate::message::wire::wf_value(self.config.target_comp_id@)
                ==> r.field_map().contains_key(56) && r.field_map()[56]
                == self.config.target_comp_id@,
    {
        let mut msg = Message::new("5");
        proof {
            reveal_strlit("5");
        }
        put_field(&mut msg, field::BEGIN_STRING, self.config.begin_string.clone());
        put_field(&mut msg, field::SENDER_COMP_ID, self.config.sender_comp_id.clone());
        proof {
            if crate::message::wire::wf_value(self.config.sender_comp_id@) {
                assert(wf_pair((49int, self.config.sender_comp_id@)));
                assert(msg.field_map().contains_key(49) && msg.field_map()[49]
                    == self.config.sender_comp_id@);
            }
        }
        put_field(&mut msg, field::TARGET_COMP_ID, self.config.target_comp_id.clone());
        proof {
            if crate::message::wire::wf_value(self.config.sender_comp_id@) {
                assert(msg.field_map().contains_key(49) && msg.field_map()[49]
                    == self.config.sender_comp_id@);
            }
            if crate::message::wire::wf_value(self.config.target_comp_id@) {
                assert(wf_pair((56int, self.config.target_comp_id@)));
                assert(msg.field_map().contains_key(56) && msg.field_map()[56]
                    == self.config.target_comp_id@);
            }
        }
        let stamp = unix_to_wire_timestamp(now);
        proof {
            assert(wf_pair((52int, stamp@)));
        }
        must_put_field(&mut msg, field::SENDING_TIME, stamp);
        proof {
            assert(msg.field_map().contains_key(34) && msg.field_map()[34] == "1"@);
            if crate::message::wire::wf_value(self.config.sender_comp_id@) {
                assert(msg.field_map().contains_key(49) && msg.field_map()[49]
                    == self.config.sender_comp_id@);
            }
            if crate::message::wire::wf_value(self.config.target_comp_id@) {
                assert(msg.field_map().contains_key(56) && msg.field_map()[56]
                    == self.config.target_comp_id@);
            }
        }
        msg
    }

    /// Assigns the next outbound sequence number to a message, stamps its
    /// identity and sending time, persists it, and advances the counter.
    /// Outbound numbering is dense: each call consumes exactly the counter's
    /// value and moves it up by one.
    pub fn prepare_outbound(&mut self, store: &mut MessageStore, msg: Message, now: u64) -> (r:
        Result<Message, FixError>)
        requires
            old(self).wf(),
            old(store).wf(),
            old(store).msgs_wf(),
            msg.wf(),
            msg.spec_formats_seq().len() == 0,
            now < 253402300800,
        ensures
            final(self).wf(),
            final(store).wf(),
            final(store).msgs_wf(),
            final(self).config == old(self).config,
            match r {
                Ok(m) => {
                    &&& old(self).spec_state().next_outgoing_seq < i32::MAX
                    &&& m.field_map().contains_key(34) && m.field_map()[34]
                        == crate::text::dec_digits_of(
                        old(self).spec_state().next_outgoing_seq as nat,
                    )
                    &&& m.field_map().contains_key(52) && m.field_map()[52]
                        == crate::timestamp::wire_timestamp_of(now)
                        && crate::message::validator::spec_is_timestamp(m.field_map()[52])
                    &&& (crate::message::wire::wf_value(old(self).config.sender_comp_id@)
                        ==> m.field_map().contains_key(49) && m.field_map()[49] == old(
                        self,
                    ).config.sender_comp_id@)
                    &&& (crate::message::wire::wf_value(old(self).config.target_comp_id@)
                        ==> m.field_map().contains_key(56) && m.field_map()[56] == old(
                        self,
                    ).config.target_comp_id@)
                    &&& final(self).spec_state() == (SessionState {
                        next_outgoing_seq: (old(self).spec_state().next_outgoing_seq + 1) as i32,
                        last_send_time: now,
                        ..old(self).spec_state()
                    })
                    &&& m.wf()
                },
                // Failure comes only from an exhausted counter: the
                // outbound sequence space, or the store's version space
                // with no transaction open to buffer into.
                Err(_) => {
                    &&& final(self).spec_state() == old(self).spec_state()
                    &&& *final(store) == *old(store)
                    &&& (old(self).spec_state().next_outgoing_seq == i32::MAX || (old(
                        store,
                    ).spec_tx(spec_session_id_of(old(self).config)) is None && old(
                        store,
                    ).spec_version_counter() == u64::MAX as int))
                },
            },
    {
        if self.state.next_outgoing_seq == i32::MAX {
            return Err(
                FixError::SessionError(String::from_str("Outbound sequence space exhausted")),
            );
        }
        let seq = self.state.next_outgoing_seq;
        let mut m = msg;
        let seq_str = u64_to_string(seq as u64);
        proof {
            crate::text::lemma_dec_digits_wf(seq as nat);
            assert(wf_pair((34int, crate::text::dec_digits_of(seq as nat)))) by {
                assert(forall|i: int|
                    0 <= i < crate::text::dec_digits_of(seq as nat).len() ==> {
                        let c = #[trigger] crate::text::dec_digits_of(seq as nat)[i];
                        crate::text::is_digit(c) ==> crate::message::wire::is_value_char(c)
                    });
            }
        }
        must_put_field(&mut m, field::MSG_SEQ_NUM, seq_str);
        proof {
            assert(m.field_map().contains_key(34));
        }
        put_field(&mut m, field::SENDER_COMP_ID, self.config.sender_comp_id.clone());
        proof {
            assert(m.field_map().contains_key(34));
            if crate::message::wire::wf_value(self.config.sender_comp_id@) {
                assert(wf_pair((49int, self.config.sender_comp_id@)));
                assert(m.field_map().contains_key(49) && m.field_map()[49]
                    == self.config.sender_comp_id@);
            }
        }
        put_field(&mut m, field::TARGET_COMP_ID, self.config.target_comp_id.clone());
        proof {
            assert(m.field_map().contains_key(34));
            if crate::message::wire::wf_value(self.config.sender_comp_id@) {
                assert(m.field_map().contains_key(49) && m.field_map()[49]
                    == self.config.sender_comp_id@);
            }
            if crate::message::wire::wf_value(self.config.target_comp_id@) {
                assert(wf_pair((56int, self.config.target_comp_id@)));
                assert(m.field_map().contains_key(56) && m.field_map()[56]
                    == self.config.target_comp_id@);
            }
        }
        let stamp = unix_to_wire_timestamp(now);
        proof {
            assert(wf_pair((52int, stamp@)));
        }
        must_put_field(&mut m, field::SENDING_TIME, stamp);
        proof {
            assert(m.field_map().contains_key(34));
            assert(m.field_map().contains_key(52) && m.field_map()[52]
                == crate::timestamp::wire_timestamp_of(now));
            if crate::message::wire::wf_value(self.config.sender_comp_id@) {
                assert(m.field_map().contains_key(49) && m.field_map()[49]
                    == self.config.sender_comp_id@);
            }
            if crate::message::wire::wf_value(self.config.target_comp_id@) {
                assert(m.field_map().contains_key(56) && m.field_map()[56]
                    == self.config.target_comp_id@);
            }
        }
        let sid = self.config.session_id();
        match store.store_message(sid.as_str(), seq, m.clone()) {
            Ok(()) => {},
            Err(e) => {
                return Err(e);
            },
        }
        self.state.increment_outgoing_seq();
        self.state.record_send_time(now);
        Ok(m)
    }

    /// One heartbeat-timer tick at `now`. In order: a session that must
    /// drop moves to `Disconnecting` and asks for a disconnect; otherwise
    /// prolonged silence sends one test request and counts it; otherwise a
    /// connected session sends a heartbeat.
    pub fn on_timer_tick(&mut self, now: u64) -> (r: Vec<SessionAction>)
        requires
            old(self).wf(),
            now < 253402300800,
            old(self).spec_state().test_request_counter < i32::MAX,
        ensures
            final(self).wf(),
            final(self).config == old(self).config,
            old(self).spec_state().spec_should_disconnect(now) ==> {
                &&& final(self).spec_state() == (SessionState {
                    status: Status::Disconnecting,
                    ..old(self).spec_state()
                })
                &&& r@.len() == 1 && r@[0] is Disconnect
            },
            !old(self).spec_state().spec_should_disconnect(now) && old(self).spec_state().spec_should_send_test_request(now) ==> {
                &&& final(self).spec_state() == (SessionState {
                    test_request_counter: (old(self).spec_state().test_request_counter + 1) as i32,
                    last_send_time: now,
                    ..old(self).spec_state()
                })
                &&& r@.len() == 1 && (r@[0] matches SessionAction::Send(m) && m.spec_msg_type()
                    == "1"@ && m.field_map().contains_key(112))
            },
            !old(self).spec_state().spec_should_disconnect(now) && !old(self).spec_state().spec_should_send_test_request(now) && old(self).spec_state().status
                == Status::Connected ==> {
                &&& final(self).spec_state() == (SessionState {
                    last_send_time: now,
                    ..old(self).spec_state()
                })
                &&& r@.len() == 1 && (r@[0] matches SessionAction::Send(m) && m.spec_msg_type()
                    == "0"@)
            },
            !old(self).spec_state().spec_should_disconnect(now) && !old(self).spec_state().spec_should_send_test_request(now) && old(self).spec_state().status
                != Status::Connected ==> final(self).spec_state() == old(self).spec_state()
                && r@.len() == 0,
    {
        let mut actions: Vec<SessionAction> = Vec::new();
        if self.state.should_disconnect_at(now) {
            self.state.set_status(Status::Disconnecting);
            actions.push(SessionAction::Disconnect);
            return actions;
        }
        if self.state.should_send_test_request_at(now) {
            self.state.increment_test_request_counter();
            let mut tr = Message::new("1");
            proof {
                reveal_strlit("1");
                reveal_strlit("TEST_");
            }
            put_field(&mut tr, field::BEGIN_STRING, self.config.begin_string.clone());
            put_field(&mut tr, field::SENDER_COMP_ID, self.config.sender_comp_id.clone());
            put_field(&mut tr, field::TARGET_COMP_ID, self.config.target_comp_id.clone());
            put_field(&mut tr, field::SENDING_TIME, unix_to_wire_timestamp(now));
            let mut req_id = String::from_str("TEST_");
            req_id.append(u64_to_string(now).as_str());
            proof {
                crate::text::lemma_dec_digits_wf(now as nat);
                assert(wf_pair((112int, req_id@))) by {
                    assert(forall|i: int|
                        0 <= i < req_id@.len() ==> crate::message::wire::is_value_char(
                            #[trigger] req_id@[i],
                        ));
                }
            }
            must_put_field(&mut tr, field::TEST_REQ_ID, req_id);
            self.state.record_send_time(now);
            actions.push(SessionAction::Send(tr));
            return actions;
        }
        if self.state.status == Status::Connected {
            let mut hb = Message::new("0");
            proof {
                reveal_strlit("0");
            }
            put_field(&mut hb, field::BEGIN_STRING, self.config.begin_string.clone());
            put_field(&mut hb, field::SENDER_COMP_ID, self.config.sender_comp_id.clone());
            put_field(&mut hb, field::TARGET_COMP_ID, self.config.target_comp_id.clone());
            put_field(&mut hb, field::SENDING_TIME, unix_to_wire_timestamp(now));
            self.state.record_send_time(now);
            actions.push(SessionAction::Send(hb));
            return actions;
        }
        actions
    }

    /// One inbound message at `now`, already parsed. A message the
    /// validator rejects is discarded; three consecutive rejects move the
    /// session to `Error`. A sequence reset applies its new number at
    /// once. Otherwise the carried number is reconciled against the
    /// expected one: a match is accepted and dispatched, a number ahead
    /// leaves the counter alone and asks the peer to resend the gap, a
    /// number behind is tolerated only for a possible duplicate.
    pub fn handle_message(&mut self, store: &mut MessageStore, msg: &Message, now: u64) -> (r:
        Vec<SessionAction>)
        requires
            old(self).wf(),
            old(store).wf(),
            old(store).msgs_wf(),
            msg.wf(),
            now < 253402300800,
            old(self).spec_state().next_incoming_seq < i32::MAX,
            old(self).spec_invalid_frames() < u32::MAX,
        ensures
            final(self).wf(),
            final(store).wf(),
            final(store).msgs_wf(),
            final(self).config == old(self).config,
            spec_handle_effects(
                *old(self),
                *final(self),
                *old(store),
                *final(store),
                msg,
                now,
                r@,
            ),
    {
        proof {
            lemma_session_lits_distinct();
        }
        let mut actions: Vec<SessionAction> = Vec::new();
        // Validation: reject, count, and fail only on a run of three.
        match MessageValidator::validate(msg) {
            Ok(()) => {},
            Err(_) => {
                self.invalid_frame_count = self.invalid_frame_count + 1;
                if self.invalid_frame_count >= 3 {
                    self.state.set_status(Status::Error);
                }
                return actions;
            },
        }
        self.invalid_frame_count = 0;
        // A sequence reset bypasses reconciliation: the peer dictates the
        // next expected number.
        if crate::text::str_eq(msg.msg_type(), "4") {
            match msg.get_field(field::NEW_SEQ_NO) {
                Some(f) => {
                    match crate::text::parse_i32_str(f.value()) {
                        Some(k) => {
                            if k >= 1 {
                                self.state.set_expected_target_seq_num(k);
                                let st = self.state.status;
                                if st == Status::ResendRequest {
                                    self.state.set_status(Status::Connected);
                                }
                                self.state.next_incoming_seq = k;
                            }
                        },
                        None => {},
                    }
                },
                None => {},
            }
            self.state.record_receive_time(now);
            return actions;
        }
        // Sequence reconciliation. A validated message always carries a
        // readable positive sequence number.
        let seq: i32 = match msg.get_field(field::MSG_SEQ_NUM) {
            Some(f) => {
                match crate::text::parse_i32_str(f.value()) {
                    Some(s) => s,
                    None => {
                        proof {
                            msg.lemma_fields_map_props();
                            let j = choose|j: int|
                                0 <= j < msg.spec_fields().len() && (
                                #[trigger] msg.spec_fields()[j]).0 == 34;
                            assert(crate::message::validator::spec_field_ok(
                                msg.spec_fields()[j].0,
                                msg.spec_fields()[j].1,
                            ));
                            assert(msg.field_map()[34] == msg.spec_fields()[j].1);
                            assert(false);
                        }
                        return actions;
                    },
                }
            },
            None => {
                proof {
                    assert(msg.field_map().contains_key(34));
                    assert(false);
                }
                return actions;
            },
        };
        let expected = self.state.next_incoming_seq;
        if seq > expected {
            // A gap: ask for the missing span, keep the counter.
            let mut rr = Message::new("2");
            proof {
                reveal_strlit("2");
            }
            put_field(&mut rr, field::BEGIN_STRING, self.config.begin_string.clone());
            put_field(&mut rr, field::SENDER_COMP_ID, self.config.sender_comp_id.clone());
            put_field(&mut rr, field::TARGET_COMP_ID, self.config.target_comp_id.clone());
            put_field(&mut rr, field::SENDING_TIME, unix_to_wire_timestamp(now));
            proof {
                crate::text::lemma_dec_digits_wf(expected as nat);
                crate::text::lemma_dec_digits_wf(seq as nat);
                assert(wf_pair((7int, crate::text::dec_digits_of(expected as nat)))) by {
                    assert(forall|i: int|
                        0 <= i < crate::text::dec_digits_of(expected as nat).len()
                            ==> crate::message::wire::is_value_char(
                            #[trigger] crate::text::dec_digits_of(expected as nat)[i],
                        ));
                }
                assert(wf_pair((16int, crate::text::dec_digits_of(seq as nat)))) by {
                    assert(forall|i: int|
                        0 <= i < crate::text::dec_digits_of(seq as nat).len()
                            ==> crate::message::wire::is_value_char(
                            #[trigger] crate::text::dec_digits_of(seq as nat)[i],
                        ));
                }
            }
            must_put_field(&mut rr, field::BEGIN_SEQ_NO, u64_to_string(expected as u64));
            must_put_field(&mut rr, field::END_SEQ_NO, u64_to_string(seq as u64));
            self.state.set_status(Status::ResendRequest);
            self.state.record_receive_time(now);
            actions.push(SessionAction::Send(rr));
            return actions;
        }
        if seq < expected {
            // Behind the counter: tolerable only as a declared duplicate.
            let possdup = match msg.get_field(field::POSS_DUP_FLAG) {
                Some(f) => crate::text::str_eq(f.value(), "Y"),
                None => false,
            };
            proof {
                reveal_strlit("Y");
            }
            if !possdup {
                self.state.set_status(Status::Error);
            }
            return actions;
        }
        // The expected number: accept and dispatch.
        self.state.increment_incoming_seq();
        self.state.reset_test_request_counter();
        self.state.record_receive_time(now);
        self.dispatch(store, msg, now, &mut actions);
        actions
    }

    /// Dispatches an accepted message by its type.
    fn dispatch(
        &mut self,
        store: &mut MessageStore,
        msg: &Message,
        now: u64,
        actions: &mut Vec<SessionAction>,
    )
        requires
            old(self).wf(),
            old(store).wf(),
            old(store).msgs_wf(),
            msg.wf(),
            spec_validate(msg),
            spec_msg_seq(msg) is Some,
            old(actions)@.len() == 0,
            now < 253402300800,
        ensures
            final(self).wf(),
            final(store).wf(),
            final(store).msgs_wf(),
            final(self).config == old(self).config,
            final(self).spec_invalid_frames() == old(self).spec_invalid_frames(),
            old(self).spec_state().test_request_counter == 0 ==> final(self).spec_state().test_request_counter == 0,
            final(self).spec_state().next_incoming_seq == old(self).spec_state().next_incoming_seq,
            final(self).spec_state().last_receive_time == old(self).spec_state().last_receive_time,
            ({
                let sid = spec_session_id_of(old(self).config);
                let mt = msg.spec_msg_type();
                let r = final(actions)@;
                &&& (mt == "A"@ ==> {
                    &&& final(self).spec_state().status == Status::Connected
                    &&& (old(self).config.reset_on_logon && msg.field_map().contains_key(141)
                        && msg.field_map()[141] == "Y"@ ==> final(store).spec_entries(sid)
                        == Seq::<crate::store::StoredEntry>::empty() && final(store).spec_next_seq(sid) == 1)
                    &&& (!(old(self).config.reset_on_logon && msg.field_map().contains_key(141)
                        && msg.field_map()[141] == "Y"@) ==> *final(store) == *old(store))
                    &&& (old(self).config.role == crate::config::SessionRole::Acceptor && old(self).spec_state().status != Status::Connected ==> r.len() == 1 && (
                    r[0] matches SessionAction::Send(lm) && lm.spec_msg_type() == "A"@ && (old(self).config.reset_on_logon ==> lm.field_map().contains_key(141)
                        && lm.field_map()[141] == "Y"@)))
                    &&& (!(old(self).config.role == crate::config::SessionRole::Acceptor && old(self).spec_state().status != Status::Connected) ==> r.len() == 0)
                })
                &&& (mt == "1"@ ==> {
                    &&& *final(store) == *old(store)
                    &&& r.len() == 1
                    &&& (r[0] matches SessionAction::Send(hb) && hb.spec_msg_type() == "0"@ && (
                    msg.field_map().contains_key(112) ==> hb.field_map().contains_key(112)
                        && hb.field_map()[112] == msg.field_map()[112]))
                })
                &&& (mt == "0"@ ==> *final(store) == *old(store) && r.len() == 0)
                &&& (mt == "5"@ ==> {
                    &&& *final(store) == *old(store)
                    &&& final(self).spec_state().status == Status::Disconnected
                    &&& r.len() == 2
                    &&& (r[0] matches SessionAction::Send(lo) && lo.spec_msg_type() == "5"@)
                    &&& r[1] is Disconnect
                })
                &&& (mt == "2"@ ==> *final(store) == *old(store) && forall|k: int|
                    0 <= k < r.len() ==> r[k] is Send)
                &&& (mt == "4"@ ==> *final(store) == *old(store) && r.len() == 0)
                &&& (!spec_admin_type(mt) ==> {
                    &&& r.len() == 1
                    &&& (r[0] matches SessionAction::Deliver(d) && d.field_map()
                        == msg.field_map() && d.spec_msg_type() == mt)
                    &&& ((match old(store).spec_tx(sid) {
                        Some(tx) => final(store).spec_tx(sid) matches Some(tx2) && tx2.version
                            == tx.version && tx2.pending@.len() == tx.pending@.len() + 1
                            && tx2.pending@[tx.pending@.len() as int].0 as int == spec_msg_seq(
                            msg,
                        )->0 && tx2.pending@[tx.pending@.len() as int].1.field_map()
                            == msg.field_map(),
                        None => final(store).spec_entries(sid).len() == old(store).spec_entries(
                            sid,
                        ).len() + 1 && final(store).spec_entries(sid).last().seq as int
                            == spec_msg_seq(msg)->0 && final(store).spec_entries(
                            sid,
                        ).last().msg.field_map() == msg.field_map(),
                    }) || *final(store) == *old(store))
                })
            }),
    {
        proof {
            lemma_session_lits_distinct();
        }
        let mt = msg.msg_type();
        if crate::text::str_eq(mt, "A") {
            // Logon: resets first where configured, then connect and reply
            // when we answer.
            if self.config.reset_on_logon {
                let wants_reset = match msg.get_field(field::RESET_SEQ_NUM_FLAG) {
                    Some(f) => crate::text::str_eq(f.value(), "Y"),
                    None => false,
                };
                if wants_reset {
                    let sid = self.config.session_id();
                    let _ = store.reset_sequence_numbers(sid.as_str());
                }
            }
            let st = self.state.status;
            let was_connected = st == Status::Connected;
            if !was_connected {
                self.state.set_status(Status::Connected);
                self.state.reset_test_request_counter();
                if self.config.is_acceptor() {
                    let reply = self.create_logon_message(now);
                    actions.push(SessionAction::Send(reply));
                }
            } else {
                self.state.reset_test_request_counter();
            }
        } else if crate::text::str_eq(mt, "1") {
            // Test request: answer with a heartbeat echoing the request id.
            let mut hb = Message::new("0");
            proof {
                reveal_strlit("0");
            }
            put_field(&mut hb, field::BEGIN_STRING, self.config.begin_string.clone());
            put_field(&mut hb, field::SENDER_COMP_ID, self.config.sender_comp_id.clone());
            put_field(&mut hb, field::TARGET_COMP_ID, self.config.target_comp_id.clone());
            put_field(&mut hb, field::SENDING_TIME, unix_to_wire_timestamp(now));
            match msg.get_field(field::TEST_REQ_ID) {
                Some(f) => {
                    proof {
                        msg.lemma_fields_map_props();
                        let j = choose|j: int|
                            0 <= j < msg.spec_fields().len() && (
                            #[trigger] msg.spec_fields()[j]).0 == 112;
                        assert(crate::message::wire::wf_pair(msg.spec_fields()[j]));
                        assert(msg.field_map()[112] == msg.spec_fields()[j].1);
                        assert(wf_pair((112int, f@.1)));
                    }
                    put_field(&mut hb, field::TEST_REQ_ID, f.value().to_owned());
                    proof {
                        assert(hb.field_map().contains_key(112) && hb.field_map()[112]
                            == msg.field_map()[112]);
                    }
                },
                None => {},
            }
            actions.push(SessionAction::Send(hb));
        } else if crate::text::str_eq(mt, "0") {
            self.state.reset_test_request_counter();
        } else if crate::text::str_eq(mt, "2") {
            // Resend request: replay the span from the store.
            let begin = match msg.get_field(field::BEGIN_SEQ_NO) {
                Some(f) => crate::text::parse_i32_str(f.value()),
                None => None,
            };
            let end = match msg.get_field(field::END_SEQ_NO) {
                Some(f) => crate::text::parse_i32_str(f.value()),
                None => None,
            };
            match (begin, end) {
                (Some(b), Some(e)) => {
                    // An end of zero asks for everything up to the newest
                    // outbound write.
                    let e2: i32 = if e == 0 {
                        if self.state.next_outgoing_seq > 1 {
                            self.state.next_outgoing_seq - 1
                        } else {
                            0
                        }
                    } else {
                        e
                    };
                    if b >= 1 && e2 >= b {
                        self.build_resend(store, b, e2, now, actions);
                    }
                },
                _ => {},
            }
        } else if crate::text::str_eq(mt, "5") {
            // Logout: echo, close, done.
            let reply = self.create_logout_message(now);
            actions.push(SessionAction::Send(reply));
            self.state.set_status(Status::Disconnected);
            actions.push(SessionAction::Disconnect);
        } else if crate::text::str_eq(mt, "4") {
            // A sequence reset is applied before dispatch; nothing is left
            // to do here.
        } else {
            // An application message: persist, then hand over. A validated
            // message always carries a readable sequence number.
            let sid = self.config.session_id();
            let seq: i32 = match msg.get_field(field::MSG_SEQ_NUM) {
                Some(f) => {
                    match crate::text::parse_i32_str(f.value()) {
                        Some(s) => s,
                        None => {
                            proof {
                                msg.lemma_fields_map_props();
                                let j = choose|j: int|
                                    0 <= j < msg.spec_fields().len() && (
                                    #[trigger] msg.spec_fields()[j]).0 == 34;
                                assert(crate::message::validator::spec_field_ok(
                                    msg.spec_fields()[j].0,
                                    msg.spec_fields()[j].1,
                                ));
                                assert(msg.field_map()[34] == msg.spec_fields()[j].1);
                                assert(false);
                            }
                            0
                        },
                    }
                },
                None => {
                    proof {
                        assert(msg.field_map().contains_key(34));
                        assert(false);
                    }
                    0
                },
            };
            let persisted = store.store_message(sid.as_str(), seq, msg.clone());
            match persisted {
                Ok(()) => {},
                Err(_) => {},
            }
            actions.push(SessionAction::Deliver(msg.clone()));
        }
    }

    /// Replays `[begin, end]` from the store: an application message goes
    /// out again as a declared duplicate with its original sending time
    /// preserved; administrative messages and holes collapse into one
    /// gap fill naming the next number the peer should expect.
    fn build_resend(
        &mut self,
        store: &mut MessageStore,
        begin: i32,
        end: i32,
        now: u64,
        actions: &mut Vec<SessionAction>,
    )
        requires
            old(self).wf(),
            old(store).wf(),
            old(store).msgs_wf(),
            1 <= begin <= end,
            now < 253402300800,
        ensures
            final(self).wf(),
            final(store).wf(),
            *final(store) == *old(store),
            final(self).spec_state() == old(self).spec_state(),
            final(self).config == old(self).config,
            final(self).spec_invalid_frames() == old(self).spec_invalid_frames(),
            final(actions)@.len() >= old(actions)@.len(),
            forall|k: int|
                0 <= k < old(actions)@.len() ==> #[trigger] final(actions)@[k]
                    == old(actions)@[k],
            forall|k: int|
                old(actions)@.len() <= k < final(actions)@.len() ==> #[trigger] final(actions)@[k] is Send,
    {
        proof {
            lemma_session_lits_distinct();
        }
        let sid = self.config.session_id();
        let mut gap_start: i32 = begin;
        let mut have_gap: bool = false;
        let mut s: i32 = begin;
        loop
            invariant
                1 <= begin <= s <= end,
                self.wf(),
                store.wf(),
                store.msgs_wf(),
                *store == *old(store),
                self.spec_state() == old(self).spec_state(),
                self.config == old(self).config,
                self.spec_invalid_frames() == old(self).spec_invalid_frames(),
                actions@.len() >= old(actions)@.len(),
                forall|k: int|
                    0 <= k < old(actions)@.len() ==> #[trigger] actions@[k] == old(actions)@[k],
                forall|k: int|
                    old(actions)@.len() <= k < actions@.len() ==> #[trigger] actions@[k] is Send,
                now < 253402300800,
            decreases end - s,
        {
            let found = match store.get_message(sid.as_str(), s) {
                Ok(opt) => opt,
                Err(_) => None,
            };
            match found {
                Some(m) => {
                    let mt_owned = m.msg_type().to_owned();
                    let is_admin = crate::text::str_eq(mt_owned.as_str(), "A") || crate::text::str_eq(
                        mt_owned.as_str(),
                        "5",
                    ) || crate::text::str_eq(mt_owned.as_str(), "0") || crate::text::str_eq(
                        mt_owned.as_str(),
                        "1",
                    ) || crate::text::str_eq(mt_owned.as_str(), "2") || crate::text::str_eq(
                        mt_owned.as_str(),
                        "4",
                    );
                    if is_admin {
                        if !have_gap {
                            have_gap = true;
                            gap_start = s;
                        }
                    } else {
                        if have_gap {
                            let gf = self.make_gap_fill(s, now);
                            actions.push(SessionAction::Send(gf));
                            have_gap = false;
                        }
                        let mut dup = m;
                        proof {
                            reveal_strlit("Y");
                        }
                        // Keep the original sending time alongside the flag.
                        match dup.get_field(field::SENDING_TIME) {
                            Some(f) => {
                                let orig = f.value().to_owned();
                                put_field(&mut dup, field::ORIG_SENDING_TIME, orig);
                            },
                            None => {},
                        }
                        put_field(&mut dup, field::POSS_DUP_FLAG, String::from_str("Y"));
                        put_field(&mut dup, field::SENDING_TIME, unix_to_wire_timestamp(now));
                        actions.push(SessionAction::Send(dup));
                    }
                },
                None => {
                    if !have_gap {
                        have_gap = true;
                        gap_start = s;
                    }
                },
            }
            if s == end {
                break ;
            }
            s = s + 1;
        }
        if have_gap {
            if end < i32::MAX {
                let gf = self.make_gap_fill(end + 1, now);
                actions.push(SessionAction::Send(gf));
            }
        }
    }

    /// One gap fill: a sequence reset flagged as a gap fill, naming the
    /// next number the peer should expect.
    fn make_gap_fill(&self, new_seq: i32, now: u64) -> (r: Message)
        requires
            new_seq >= 0,
            now < 253402300800,
        ensures
            r.wf(),
            r.spec_msg_type() == "4"@,
            r.field_map().contains_key(36) && r.field_map()[36] == crate::text::dec_digits_of(
                new_seq as nat,
            ),
            r.field_map().contains_key(123) && r.field_map()[123] == "Y"@,
    {
        let mut gf = Message::new("4");
        proof {
            reveal_strlit("4");
            reveal_strlit("Y");
        }
        put_field(&mut gf, field::BEGIN_STRING, self.config.begin_string.clone());
        put_field(&mut gf, field::SENDER_COMP_ID, self.config.sender_comp_id.clone());
        put_field(&mut gf, field::TARGET_COMP_ID, self.config.target_comp_id.clone());
        put_field(&mut gf, field::SENDING_TIME, unix_to_wire_timestamp(now));
        must_put_field(&mut gf, field::GAP_FILL_FLAG, String::from_str("Y"));
        proof {
            crate::text::lemma_dec_digits_wf(new_seq as nat);
            assert(wf_pair((36int, crate::text::dec_digits_of(new_seq as nat)))) by {
                assert(forall|i: int|
                    0 <= i < crate::text::dec_digits_of(new_seq as nat).len()
                        ==> crate::message::wire::is_value_char(
                        #[trigger] crate::text::dec_digits_of(new_seq as nat)[i],
                    ));
            }
        }
        must_put_field(&mut gf, field::NEW_SEQ_NO, u64_to_string(new_seq as u64));
        gf
    }

    /// Handles one raw inbound frame: extract nothing here — the frame is
    /// parsed, its checksum verified, and the message handed to
    /// `handle_message`; a frame that does not parse or whose checksum
    /// does not match counts as invalid, and three in a row are fatal.
    pub fn on_frame(&mut self, store: &mut MessageStore, frame: &str, now: u64) -> (r: Vec<
        SessionAction,
    >)
        requires
            old(self).wf(),
            old(store).wf(),
            old(store).msgs_wf(),
            now < 253402300800,
            old(self).spec_state().next_incoming_seq < i32::MAX,
            old(self).spec_invalid_frames() < u32::MAX,
        ensures
            final(self).wf(),
            final(store).wf(),
            final(store).msgs_wf(),
            final(self).config == old(self).config,
            // A frame that does not parse — a malformed piece, a missing
            // version or type, an entry-count mismatch, or checksum digits
            // that are not the true sum — is discarded and counted; the
            // third in a row is fatal.
            !(vstd::utf8::is_ascii_chars(frame@) && crate::message::wire::spec_parse(frame@)
                is Some) ==> {
                &&& final(self).spec_invalid_frames() == old(self).spec_invalid_frames() + 1
                &&& (old(self).spec_invalid_frames() + 1 < 3 ==> final(self).spec_state() == old(
                    self,
                ).spec_state())
                &&& (old(self).spec_invalid_frames() + 1 >= 3 ==> final(self).spec_state() == (
                SessionState { status: Status::Error, ..old(self).spec_state() }))
                &&& r@.len() == 0
                &&& *final(store) == *old(store)
            },
            // A frame that parses is handled as the message it denotes.
            vstd::utf8::is_ascii_chars(frame@) && crate::message::wire::spec_parse(frame@)
                is Some ==> exists|m: Message|
                {
                    let parsed = crate::message::wire::spec_parse(frame@)->0;
                    &&& #[trigger] m.wf()
                    &&& m.spec_msg_type() == parsed.0
                    &&& m.field_map() == parsed.1
                    &&& m.spec_groups() == parsed.2
                    &&& spec_handle_effects(
                        *old(self),
                        *final(self),
                        *old(store),
                        *final(store),
                        &m,
                        now,
                        r@,
                    )
                },
    {
        match crate::message::parser::MessageParser::parse(frame) {
            Ok(m) => {
                let acts = self.handle_message(store, &m, now);
                proof {
                    assert(m.wf() && spec_handle_effects(
                        *old(self),
                        *self,
                        *old(store),
                        *store,
                        &m,
                        now,
                        acts@,
                    ));
                }
                acts
            },
            Err(_) => {
                self.invalid_frame_count = self.invalid_frame_count + 1;
                if self.invalid_frame_count >= 3 {
                    self.state.set_status(Status::Error);
                }
                Vec::new()
            },
        }
    }
}

/// Whether a frame ends with a well-formed checksum trailer carrying the
/// true mod-256 character sum: exactly the trailer condition the parse
/// model enforces.
pub fn verify_frame_checksum(frame: &str) -> (r: bool)
    ensures
        r == crate::message::wire::spec_trailer_ok(frame@),
{
    crate::message::wire::verify_frame_checksum(frame)
}

/// Sets a field, keeping the message unchanged when the value is not
/// admissible on the wire.
fn put_field(m: &mut Message, tag: i32, value: String)
    requires
        old(m).wf(),
    ensures
        final(m).wf(),
        final(m).spec_msg_type() == old(m).spec_msg_type(),
        final(m).spec_groups_seq() == old(m).spec_groups_seq(),
        final(m).spec_formats_seq() == old(m).spec_formats_seq(),
        old(m).spec_formats_seq().len() == 0 && wf_pair((tag as int, value@)) ==> final(m).field_map() == old(m).field_map().insert(tag as int, value@),
        forall|t: int|
            t != tag as int && #[trigger] old(m).field_map().contains_key(t) ==> final(m).field_map().contains_key(t) && final(m).field_map()[t] == old(m).field_map()[t],
        forall|t: int|
            t != tag as int && #[trigger] final(m).field_map().contains_key(t) ==> old(m).field_map().contains_key(t),
    {
        let f = crate::message::Field::new(tag, value);
        proof {
            if old(m).spec_formats_seq().len() == 0 {
                assert(old(m).format_map() == Map::<int, crate::message::formatter::ValueFormat>::empty());
                assert(!old(m).format_map().contains_key(tag as int));
            }
        }
        let _ = m.set_field(f);
    }

/// Sets a field whose value is known admissible.
fn must_put_field(m: &mut Message, tag: i32, value: String)
    requires
        old(m).wf(),
        wf_pair((tag as int, value@)),
        old(m).spec_formats_seq().len() == 0,
    ensures
        final(m).wf(),
        final(m).spec_msg_type() == old(m).spec_msg_type(),
        final(m).spec_groups_seq() == old(m).spec_groups_seq(),
        final(m).spec_formats_seq() == old(m).spec_formats_seq(),
        final(m).field_map() == old(m).field_map().insert(tag as int, value@),
{
    put_field(m, tag, value);
}

/// The administrative message-type literals are pairwise distinct, and
/// distinct from the flag literal.
proof fn lemma_session_lits_distinct()
    ensures
        "A"@ != "1"@ && "A"@ != "0"@ && "A"@ != "2"@ && "A"@ != "5"@ && "A"@ != "4"@,
        "1"@ != "0"@ && "1"@ != "2"@ && "1"@ != "5"@ && "1"@ != "4"@,
        "0"@ != "2"@ && "0"@ != "5"@ && "0"@ != "4"@,
        "2"@ != "5"@ && "2"@ != "4"@,
        "5"@ != "4"@,
{
    reveal_strlit("A");
    reveal_strlit("1");
    reveal_strlit("0");
    reveal_strlit("2");
    reveal_strlit("5");
    reveal_strlit("4");
    assert("A"@[0] == 'A' && "1"@[0] == '1' && "0"@[0] == '0' && "2"@[0] == '2' && "5"@[0] == '5'
        && "4"@[0] == '4');
    lit_ne("A", "1");
    lit_ne("A", "0");
    lit_ne("A", "2");
    lit_ne("A", "5");
    lit_ne("A", "4");
    lit_ne("1", "0");
    lit_ne("1", "2");
    lit_ne("1", "5");
    lit_ne("1", "4");
    lit_ne("0", "2");
    lit_ne("0", "5");
    lit_ne("0", "4");
    lit_ne("2", "5");
    lit_ne("2", "4");
    lit_ne("5", "4");
}

proof fn lit_ne(a: &str, b: &str)
    requires
        a@.len() == 1,
        b@.len() == 1,
        a@[0] != b@[0],
    ensures
        a@ != b@,
{
    if a@ == b@ {
        assert(a@[0] == b@[0]);
    }
}

} // verus!
