//! Which reply the client is waiting for, and for how long.
//!
//! At most one transfer is expected at a time. Its deadline is set when the
//! command has been written out, not when the transfer is announced. When the
//! deadline passes, or the transfer is given up, its image is retired: for a
//! short while a late reply about it is still recognised, and dropped.

use std::sync::atomic::AtomicBool;
use std::sync::Arc;

use vstd::prelude::*;

use crate::bytes::{find_byte, index_of, lemma_index_of};
use crate::clock::{counts_from, last_shown, Clock, LATEST_MOMENT};
use crate::controls::{matching_response_controls, reply_names, ESCAPE, SEMICOLON};
use crate::flag::{last_stored, shared_atomic, ActiveFlag};

verus! {

/// Most bytes that a reply may have.
pub const MAX_RESPONSE_BYTES: usize = 4096;

/// How long a terminal may take to reply, in nanoseconds.
pub const RESPONSE_TIMEOUT: u128 = 3_000_000_000;

/// How long a late reply is still dropped, in nanoseconds.
pub const LATE_RESPONSE_DRAIN: u128 = 1_000_000_000;

/// `_`, behind the escape byte that starts a graphics command or reply.
pub const UNDERSCORE: u8 = 0x5f;

/// `G`, behind the underscore that starts a graphics command or reply.
pub const GRAPHICS: u8 = 0x47;

/// `\`, behind the escape byte that ends a graphics command or reply.
pub const BACKSLASH: u8 = 0x5c;

/// The three bytes that start a graphics command or reply.
pub open spec fn kitty_prefix() -> Seq<u8> {
    seq![ESCAPE, UNDERSCORE, GRAPHICS]
}

/// The two bytes that end a graphics command or reply.
pub open spec fn kitty_suffix() -> Seq<u8> {
    seq![ESCAPE, BACKSLASH]
}

/// The message of a reply that reports success: `OK`.
pub open spec fn ok_message() -> Seq<u8> {
    seq![0x4fu8, 0x4bu8]
}

/// What stands between the start and the end of a graphics command or reply.
pub open spec fn payload(bytes: Seq<u8>) -> Seq<u8> {
    bytes.subrange(3, bytes.len() - 2)
}

/// `bytes` have the form of a reply: start, control data, a semicolon, a
/// message, end; and they are not too long.
pub open spec fn is_reply(bytes: Seq<u8>) -> bool {
    &&& kitty_prefix().is_prefix_of(bytes)
    &&& kitty_suffix().is_suffix_of(bytes)
    &&& bytes.len() <= MAX_RESPONSE_BYTES
    &&& payload(bytes).contains(SEMICOLON)
}

/// The control data of a reply: what stands before the first semicolon.
pub open spec fn reply_control(bytes: Seq<u8>) -> Seq<u8> {
    payload(bytes).take(index_of(payload(bytes), SEMICOLON) as int)
}

/// The message of a reply: what stands behind the first semicolon.
pub open spec fn reply_message(bytes: Seq<u8>) -> Seq<u8> {
    payload(bytes).skip(index_of(payload(bytes), SEMICOLON) as int + 1)
}

/// What the terminal said about a transfer.
#[derive(Debug, PartialEq, Eq, Structural)]
pub struct Response {
    pub transfer_id: u64,
    pub image_id: u32,
    pub success: bool,
}

/// A transfer that waits for its reply. There is no deadline before it is started.
pub struct Expectation {
    pub transfer_id: u64,
    pub image_id: u32,
    pub deadline: Option<nat>,
}

/// An image whose late reply is dropped until `until`.
pub struct Retirement {
    pub image_id: u32,
    pub until: nat,
}

/// What a matcher is waiting for.
pub struct MatcherState {
    pub expected: Option<Expectation>,
    pub retired: Option<Retirement>,
}

impl MatcherState {
    /// Some reply would be recognised.
    pub open spec fn is_waiting(self) -> bool {
        self.expected is Some || self.retired is Some
    }

    /// Transfer `transfer_id` is the expected one.
    pub open spec fn expects(self, transfer_id: u64) -> bool {
        self.expected matches Some(e) && e.transfer_id == transfer_id
    }

    /// The expected transfer has a deadline, and it has passed.
    pub open spec fn is_overdue(self, now: nat) -> bool {
        self.expected matches Some(e) && e.deadline matches Some(deadline) && deadline <= now
    }

    /// If the expected transfer is overdue at moment `now`, the end of its
    /// retirement can be represented.
    pub open spec fn can_expire(self, now: nat) -> bool {
        self.is_overdue(now) ==> now + LATE_RESPONSE_DRAIN <= u128::MAX
    }

    /// The state at moment `now`: an overdue transfer is retired, and a
    /// retirement that has run out is forgotten.
    pub open spec fn expired(self, now: nat) -> MatcherState {
        let retired = if self.is_overdue(now) {
            Some(
                Retirement {
                    image_id: self.expected->0.image_id,
                    until: now + LATE_RESPONSE_DRAIN as nat,
                },
            )
        } else {
            self.retired
        };
        MatcherState {
            expected: if self.is_overdue(now) {
                None
            } else {
                self.expected
            },
            retired: if retired matches Some(r) && r.until <= now {
                None
            } else {
                retired
            },
        }
    }

    /// The state after a transfer is announced, which replaces no other one.
    pub open spec fn armed(self, transfer_id: u64, image_id: u32) -> MatcherState {
        if self.expected is Some {
            self
        } else {
            MatcherState {
                expected: Some(Expectation { transfer_id, image_id, deadline: None }),
                ..self
            }
        }
    }

    /// The state after a transfer was written out at moment `now`.
    pub open spec fn started(self, transfer_id: u64, now: nat) -> MatcherState {
        if self.expects(transfer_id) {
            MatcherState {
                expected: Some(
                    Expectation {
                        deadline: Some(now + RESPONSE_TIMEOUT as nat),
                        ..self.expected->0
                    },
                ),
                ..self
            }
        } else {
            self
        }
    }

    /// The state after a transfer that was never written out is given up.
    pub open spec fn cancelled(self, transfer_id: u64) -> MatcherState {
        if self.expects(transfer_id) {
            MatcherState { expected: None, ..self }
        } else {
            self
        }
    }

    /// The state after a transfer is given up at moment `now`, when a reply to
    /// it may still come.
    pub open spec fn given_up(self, transfer_id: u64, now: nat) -> MatcherState {
        if self.expects(transfer_id) {
            MatcherState {
                expected: None,
                retired: Some(
                    Retirement {
                        image_id: self.expected->0.image_id,
                        until: now + LATE_RESPONSE_DRAIN as nat,
                    },
                ),
            }
        } else {
            self
        }
    }

    /// `bytes` are a reply about the retired image.
    pub open spec fn is_late_reply(self, bytes: Seq<u8>) -> bool {
        &&& self.retired matches Some(r)
        &&& is_reply(bytes)
        &&& reply_names(reply_control(bytes), r.image_id)
    }

    /// `bytes` are a reply about the expected image, and not about the retired one.
    pub open spec fn is_expected_reply(self, bytes: Seq<u8>) -> bool {
        &&& self.expected matches Some(e)
        &&& is_reply(bytes)
        &&& reply_names(reply_control(bytes), e.image_id)
        &&& !self.is_late_reply(bytes)
    }

    /// What is made of `bytes`: `None` if they are not for the matcher,
    /// `Some(None)` for a late reply, which is dropped, and the response for the
    /// expected reply.
    pub open spec fn answer(self, bytes: Seq<u8>) -> Option<Option<Response>> {
        if self.is_late_reply(bytes) {
            Some(None)
        } else if self.is_expected_reply(bytes) {
            Some(
                Some(
                    Response {
                        transfer_id: self.expected->0.transfer_id,
                        image_id: self.expected->0.image_id,
                        success: reply_message(bytes) == ok_message(),
                    },
                ),
            )
        } else {
            None
        }
    }

    /// The state after `bytes`: what they answered is no longer waited for.
    pub open spec fn after(self, bytes: Seq<u8>) -> MatcherState {
        if self.is_late_reply(bytes) {
            MatcherState { retired: None, ..self }
        } else if self.is_expected_reply(bytes) {
            MatcherState { expected: None, ..self }
        } else {
            self
        }
    }
}

/// Waits for the reply to a direct transfer.
///
/// Methods whose name ends in `_at` take the present moment; the others read
/// it off the clock.
#[derive(Debug)]
pub struct ResponseMatcher {
    expected: Option<(u64, u32, Option<u128>)>,
    retired: Option<(u32, u128)>,
    active: ActiveFlag,
    clock: Clock,
}

impl View for ResponseMatcher {
    type V = MatcherState;

    closed spec fn view(&self) -> MatcherState {
        MatcherState {
            expected: match self.expected {
                Some((transfer_id, image_id, deadline)) => Some(
                    Expectation {
                        transfer_id,
                        image_id,
                        deadline: match deadline {
                            Some(moment) => Some(moment as nat),
                            None => None,
                        },
                    },
                ),
                None => None,
            },
            retired: match self.retired {
                Some((image_id, until)) => Some(Retirement { image_id, until: until as nat }),
                None => None,
            },
        }
    }
}

impl Default for ResponseMatcher {
    /// A matcher that waits for nothing.
    fn default() -> (matcher: ResponseMatcher)
        ensures
            matcher.well_formed(),
            matcher@ == (MatcherState { expected: None, retired: None }),
            matcher.moment() == 0,
    {
        ResponseMatcher {
            expected: None,
            retired: None,
            active: ActiveFlag::new(),
            clock: Clock::start(),
        }
    }
}

impl ResponseMatcher {
    /// The value that the matcher last stored in the shared flag.
    pub closed spec fn published(&self) -> bool {
        self.active@
    }

    /// The point in time from which the matcher's moments count.
    pub closed spec fn origin(&self) -> std::time::Instant {
        self.clock.origin()
    }

    /// What the matcher's clock showed when it was last read.
    pub closed spec fn moment(&self) -> nat {
        self.clock.moment()
    }

    /// The shared flag.
    pub closed spec fn shared_flag(&self) -> Arc<AtomicBool> {
        self.active.shared()
    }

    /// The value last stored in the shared flag says whether the matcher is waiting.
    pub open spec fn well_formed(&self) -> bool {
        self.published() == self@.is_waiting()
    }

    /// A handle to the flag that says whether the matcher is waiting.
    pub fn active_handle(&self) -> (handle: Arc<AtomicBool>)
        ensures
            handle == self.shared_flag(),
    {
        self.active.handle()
    }

    /// Publishes whether the matcher is waiting.
    pub fn refresh_active(&mut self)
        ensures
            final(self).well_formed(),
            final(self).shared_flag() == old(self).shared_flag(),
            final(self).origin() == old(self).origin(),
            final(self).moment() == old(self).moment(),
            final(self)@ == old(self)@,
    {
        self.active.set(self.expected.is_some() || self.retired.is_some());
    }

    /// Reads the matcher's clock: the present moment.
    pub fn now(&mut self) -> (now: u128)
        ensures
            now == final(self).moment(),
            old(self).moment() <= now <= LATEST_MOMENT,
            final(self).published() == old(self).published(),
            final(self).shared_flag() == old(self).shared_flag(),
            final(self).origin() == old(self).origin(),
            final(self)@ == old(self)@,
    {
        self.clock.now()
    }

    /// Whether the matcher is waiting.
    pub fn interested(&mut self) -> (waiting: bool)
        requires
            old(self).well_formed(),
        ensures
            final(self).well_formed(),
            final(self).shared_flag() == old(self).shared_flag(),
            final(self).origin() == old(self).origin(),
            old(self).moment() <= final(self).moment() <= LATEST_MOMENT,
            final(self)@ == old(self)@.expired(final(self).moment()),
            waiting == final(self)@.is_waiting(),
    {
        let now: u128 = self.now();
        self.interested_at(now)
    }

    /// Whether the matcher is waiting at moment `now`.
    pub fn interested_at(&mut self, now: u128) -> (waiting: bool)
        requires
            old(self).well_formed(),
            old(self)@.can_expire(now as nat),
        ensures
            final(self).well_formed(),
            final(self).shared_flag() == old(self).shared_flag(),
            final(self).origin() == old(self).origin(),
            final(self).moment() == old(self).moment(),
            final(self)@ == old(self)@.expired(now as nat),
            waiting == final(self)@.is_waiting(),
    {
        self.expire_at(now);
        self.expected.is_some() || self.retired.is_some()
    }

    /// Announces a transfer. Refused while another one is expected.
    pub fn arm(&mut self, transfer_id: u64, image_id: u32) -> (accepted: bool)
        requires
            old(self).well_formed(),
        ensures
            final(self).well_formed(),
            final(self).shared_flag() == old(self).shared_flag(),
            final(self).origin() == old(self).origin(),
            old(self).moment() <= final(self).moment() <= LATEST_MOMENT,
            accepted == old(self)@.expired(final(self).moment()).expected is None,
            final(self)@ == old(self)@.expired(final(self).moment()).armed(transfer_id, image_id),
    {
        let now: u128 = self.now();
        self.arm_at(transfer_id, image_id, now)
    }

    /// Announces a transfer at moment `now`. Refused while another one is expected.
    pub fn arm_at(&mut self, transfer_id: u64, image_id: u32, now: u128) -> (accepted: bool)
        requires
            old(self).well_formed(),
            old(self)@.can_expire(now as nat),
        ensures
            final(self).well_formed(),
            final(self).shared_flag() == old(self).shared_flag(),
            final(self).origin() == old(self).origin(),
            final(self).moment() == old(self).moment(),
            accepted == old(self)@.expired(now as nat).expected is None,
            final(self)@ == old(self)@.expired(now as nat).armed(transfer_id, image_id),
    {
        self.expire_at(now);
        if self.expected.is_some() {
            return false;
        }
        self.expected = Some((transfer_id, image_id, None));
        self.refresh_active();
        true
    }

    /// Sets the deadline of the expected transfer, now that it was written out.
    pub fn start(&mut self, transfer_id: u64)
        requires
            old(self).well_formed(),
        ensures
            final(self).well_formed(),
            final(self).shared_flag() == old(self).shared_flag(),
            final(self).origin() == old(self).origin(),
            old(self).moment() <= final(self).moment() <= LATEST_MOMENT,
            final(self)@ == old(self)@.started(transfer_id, final(self).moment()),
    {
        let now: u128 = self.now();
        self.start_at(transfer_id, now);
    }

    /// Sets the deadline of the expected transfer, which was written out at moment `now`.
    pub fn start_at(&mut self, transfer_id: u64, now: u128)
        requires
            old(self).well_formed(),
            old(self)@.expects(transfer_id) ==> now + RESPONSE_TIMEOUT <= u128::MAX,
        ensures
            final(self).well_formed(),
            final(self).shared_flag() == old(self).shared_flag(),
            final(self).origin() == old(self).origin(),
            final(self).moment() == old(self).moment(),
            final(self)@ == old(self)@.started(transfer_id, now as nat),
    {
        if let Some((id, image_id, _)) = self.expected {
            if id == transfer_id {
                self.expected = Some((id, image_id, Some(now + RESPONSE_TIMEOUT)));
            }
        }
    }

    /// Gives up a transfer that was never written out.
    pub fn cancel(&mut self, transfer_id: u64)
        requires
            old(self).well_formed(),
        ensures
            final(self).well_formed(),
            final(self).shared_flag() == old(self).shared_flag(),
            final(self).origin() == old(self).origin(),
            final(self).moment() == old(self).moment(),
            final(self)@ == old(self)@.cancelled(transfer_id),
    {
        if let Some((id, _, _)) = self.expected {
            if id == transfer_id {
                self.expected = None;
                self.refresh_active();
            }
        }
    }

    /// Gives up a transfer to which a reply may still come.
    pub fn retire(&mut self, transfer_id: u64)
        requires
            old(self).well_formed(),
        ensures
            final(self).well_formed(),
            final(self).shared_flag() == old(self).shared_flag(),
            final(self).origin() == old(self).origin(),
            old(self).moment() <= final(self).moment() <= LATEST_MOMENT,
            final(self)@ == old(self)@.given_up(transfer_id, final(self).moment()),
    {
        let now: u128 = self.now();
        self.retire_at(transfer_id, now);
    }

    /// Gives up, at moment `now`, a transfer to which a reply may still come.
    pub fn retire_at(&mut self, transfer_id: u64, now: u128)
        requires
            old(self).well_formed(),
            old(self)@.expects(transfer_id) ==> now + LATE_RESPONSE_DRAIN <= u128::MAX,
        ensures
            final(self).well_formed(),
            final(self).shared_flag() == old(self).shared_flag(),
            final(self).origin() == old(self).origin(),
            final(self).moment() == old(self).moment(),
            final(self)@ == old(self)@.given_up(transfer_id, now as nat),
    {
        if let Some((id, image_id, _)) = self.expected {
            if id == transfer_id {
                self.expected = None;
                self.retired = Some((image_id, now + LATE_RESPONSE_DRAIN));
                self.refresh_active();
            }
        }
    }

    /// Retires an overdue transfer and forgets a retirement that has run out.
    pub fn expire(&mut self)
        requires
            old(self).well_formed(),
        ensures
            final(self).well_formed(),
            final(self).shared_flag() == old(self).shared_flag(),
            final(self).origin() == old(self).origin(),
            old(self).moment() <= final(self).moment() <= LATEST_MOMENT,
            final(self)@ == old(self)@.expired(final(self).moment()),
    {
        let now: u128 = self.now();
        self.expire_at(now);
    }

    /// Retires a transfer that is overdue at moment `now` and forgets a
    /// retirement that has run out by then.
    pub fn expire_at(&mut self, now: u128)
        requires
            old(self).well_formed(),
            old(self)@.can_expire(now as nat),
        ensures
            final(self).well_formed(),
            final(self).shared_flag() == old(self).shared_flag(),
            final(self).origin() == old(self).origin(),
            final(self).moment() == old(self).moment(),
            final(self)@ == old(self)@.expired(now as nat),
    {
        if let Some((_, image_id, Some(deadline))) = self.expected {
            if deadline <= now {
                self.expected = None;
                self.retired = Some((image_id, now + LATE_RESPONSE_DRAIN));
            }
        }
        if let Some((_, until)) = self.retired {
            if until <= now {
                self.retired = None;
            }
        }
        self.refresh_active();
    }

    /// Offers `bytes` to the matcher: `None` if they are not for it,
    /// `Some(None)` for a late reply and the response for the expected one.
    pub fn consume(&mut self, bytes: &[u8]) -> (answer: Option<Option<Response>>)
        requires
            old(self).well_formed(),
        ensures
            final(self).well_formed(),
            final(self).shared_flag() == old(self).shared_flag(),
            final(self).origin() == old(self).origin(),
            old(self).moment() <= final(self).moment() <= LATEST_MOMENT,
            answer == old(self)@.expired(final(self).moment()).answer(bytes@),
            final(self)@ == old(self)@.expired(final(self).moment()).after(bytes@),
    {
        let now: u128 = self.now();
        self.consume_at(bytes, now)
    }

    /// Offers `bytes` to the matcher at moment `now`.
    pub fn consume_at(&mut self, bytes: &[u8], now: u128) -> (answer: Option<Option<Response>>)
        requires
            old(self).well_formed(),
            old(self)@.can_expire(now as nat),
        ensures
            final(self).well_formed(),
            final(self).shared_flag() == old(self).shared_flag(),
            final(self).origin() == old(self).origin(),
            final(self).moment() == old(self).moment(),
            answer == old(self)@.expired(now as nat).answer(bytes@),
            final(self)@ == old(self)@.expired(now as nat).after(bytes@),
    {
        self.expire_at(now);
        if bytes.len() > MAX_RESPONSE_BYTES || !is_framed(bytes) {
            return None;
        }
        let payload: &[u8] = &bytes[3..bytes.len() - 2];
        let separator: usize = find_byte(payload, SEMICOLON);
        proof {
            lemma_index_of(payload@, SEMICOLON);
        }
        if separator == payload.len() {
            return None;
        }
        assert(payload@.contains(payload@[separator as int]));
        let control: &[u8] = &payload[0..separator];
        let message: &[u8] = &payload[separator + 1..payload.len()];
        assert(control@ =~= reply_control(bytes@));
        assert(message@ =~= reply_message(bytes@));
        if let Some((retired_id, _)) = self.retired {
            if matching_response_controls(control, retired_id) {
                self.retired = None;
                self.refresh_active();
                return Some(None);
            }
        }
        if let Some((transfer_id, image_id, _)) = self.expected {
            if matching_response_controls(control, image_id) {
                self.expected = None;
                self.refresh_active();
                return Some(
                    Some(
                        Response {
                            transfer_id,
                            image_id,
                            success: is_ok(message),
                        },
                    ),
                );
            }
        }
        None
    }
}

/// What the contracts say of a matcher is said of what it holds: the flag that
/// is published is the one that its handles share, and moments are read off its
/// own clock.
proof fn law_matcher_is_what_it_holds(matcher: ResponseMatcher)
    ensures
        matcher.published() == last_stored(matcher.active),
        matcher.shared_flag() == shared_atomic(matcher.active),
        matcher.moment() == last_shown(matcher.clock),
        matcher.origin() == counts_from(matcher.clock),
        matcher@.expected is Some <==> matcher.expected is Some,
        matcher.expected matches Some(e) ==> {
            &&& matcher@.expected->0.transfer_id == e.0
            &&& matcher@.expected->0.image_id == e.1
            &&& matcher@.expected->0.deadline is Some <==> e.2 is Some
            &&& e.2 matches Some(deadline) ==> matcher@.expected->0.deadline->0 == deadline
        },
        matcher@.retired is Some <==> matcher.retired is Some,
        matcher.retired matches Some(r) ==> {
            &&& matcher@.retired->0.image_id == r.0
            &&& matcher@.retired->0.until == r.1
        },
{
}

/// Whether `bytes` start and end as a graphics command or reply does.
fn is_framed(bytes: &[u8]) -> (framed: bool)
    ensures
        framed == (kitty_prefix().is_prefix_of(bytes@) && kitty_suffix().is_suffix_of(bytes@)),
        framed ==> bytes@.len() >= 5,
{
    let n: usize = bytes.len();
    let framed: bool = n >= 5 && bytes[0] == ESCAPE && bytes[1] == UNDERSCORE && bytes[2] == GRAPHICS
        && bytes[n - 2] == ESCAPE && bytes[n - 1] == BACKSLASH;
    proof {
        if framed {
            assert(bytes@.subrange(0, 3) =~= kitty_prefix());
            assert(bytes@.subrange(n - 2, n as int) =~= kitty_suffix());
        }
        if kitty_prefix().is_prefix_of(bytes@) && kitty_suffix().is_suffix_of(bytes@) {
            assert(bytes@.subrange(0, 3)[0] == ESCAPE && bytes@.subrange(0, 3)[1] == UNDERSCORE
                && bytes@.subrange(0, 3)[2] == GRAPHICS);
            assert(bytes@.subrange(n - 2, n as int)[0] == ESCAPE);
            assert(bytes@.subrange(n - 2, n as int)[1] == BACKSLASH);
        }
    }
    framed
}

/// Whether the message of a reply reports success.
fn is_ok(message: &[u8]) -> (ok: bool)
    ensures
        ok == (message@ == ok_message()),
{
    let ok: bool = message.len() == 2 && message[0] == 0x4f && message[1] == 0x4b;
    assert(ok ==> message@ =~= ok_message());
    ok
}

} // verus!
