//! What holds of a matcher over several operations.

use vstd::prelude::*;

use crate::bytes::{index_of, lemma_index_of, lemma_index_of_unique};
use crate::controls::{reply_names, SEMICOLON};
use crate::controls_laws::{law_plain_reply_names_its_image, law_reply_names_one_image};
use crate::controls_laws::plain_reply_control;
use crate::matcher::{is_reply, ok_message, payload, reply_control, reply_message};
use crate::matcher::{kitty_prefix, kitty_suffix, MatcherState, Response, Retirement};
use crate::matcher::ResponseMatcher;
use crate::matcher::{LATE_RESPONSE_DRAIN, MAX_RESPONSE_BYTES, RESPONSE_TIMEOUT};

verus! {

/// Looking at the clock twice at the same moment changes nothing more, and
/// looking at it earlier on never changes whether a transfer is expected later.
pub proof fn law_expiry_settles(state: MatcherState, now: nat, later: nat)
    requires
        now <= later,
    ensures
        state.expired(now).expired(now) == state.expired(now),
        state.expired(now).expired(later).expected == state.expired(later).expected,
{
}

/// A transfer that was announced but not yet written out never times out.
pub proof fn law_no_deadline_before_start(state: MatcherState, now: nat)
    requires
        state.expected matches Some(e) && e.deadline is None,
    ensures
        state.expired(now).expected == state.expected,
{
}

/// While a transfer is expected, no other one can be announced.
pub proof fn law_one_transfer_at_a_time(
    state: MatcherState,
    transfer_id: u64,
    image_id: u32,
    other_transfer: u64,
    other_image: u32,
)
    ensures
        state.armed(transfer_id, image_id).expected is Some,
        state.armed(transfer_id, image_id).armed(other_transfer, other_image) == state.armed(
            transfer_id,
            image_id,
        ),
{
}

/// Cancelling a transfer undoes its announcement, and another can be announced.
pub proof fn law_cancel_undoes_arm(state: MatcherState, transfer_id: u64, image_id: u32)
    requires
        state.expected is None,
    ensures
        state.armed(transfer_id, image_id).cancelled(transfer_id) == state,
        state.armed(transfer_id, image_id).cancelled(transfer_id).expected is None,
{
}

/// Starting, cancelling and giving up concern the expected transfer alone.
pub proof fn law_other_transfers_are_left_alone(state: MatcherState, transfer_id: u64, now: nat)
    requires
        state.expected matches Some(e) ==> e.transfer_id != transfer_id,
    ensures
        !state.expects(transfer_id),
        state.started(transfer_id, now) == state,
        state.cancelled(transfer_id) == state,
        state.given_up(transfer_id, now) == state,
{
}

/// A transfer that was written out at moment `now` is expected for
/// `RESPONSE_TIMEOUT`, and from then on retired.
pub proof fn law_timeout(state: MatcherState, transfer_id: u64, now: nat, later: nat)
    requires
        state.expects(transfer_id),
    ensures
        later < now + RESPONSE_TIMEOUT ==> state.started(transfer_id, now).expired(later).expects(
            transfer_id,
        ),
        later >= now + RESPONSE_TIMEOUT ==> state.started(transfer_id, now).expired(later) == (
        MatcherState {
            expected: None,
            retired: Some(
                Retirement {
                    image_id: state.expected->0.image_id,
                    until: later + LATE_RESPONSE_DRAIN as nat,
                },
            ),
        }),
{
}

/// A retirement lasts for `LATE_RESPONSE_DRAIN`.
pub proof fn law_retirement_runs_out(state: MatcherState, transfer_id: u64, now: nat, later: nat)
    requires
        state.expects(transfer_id),
    ensures
        state.given_up(transfer_id, now).expired(later).expected is None,
        state.given_up(transfer_id, now).expired(later).is_waiting() <==> later < now
            + LATE_RESPONSE_DRAIN,
{
}

/// A response is about the expected transfer, and is reported once: nothing
/// else can be answered with a response until a new transfer is announced.
pub proof fn law_response_is_reported_once(
    state: MatcherState,
    bytes: Seq<u8>,
    response: Response,
    now: nat,
    more: Seq<u8>,
)
    requires
        state.answer(bytes) == Some(Some(response)),
    ensures
        state.expected matches Some(e) && response.transfer_id == e.transfer_id
            && response.image_id == e.image_id,
        response.success <==> reply_message(bytes) == ok_message(),
        state.after(bytes).expected is None,
        !(state.after(bytes).expired(now).answer(more) matches Some(Some(_))),
{
}

/// A late reply is dropped, once: it is neither forwarded nor reported, and
/// the image is no longer retired afterwards.
pub proof fn law_late_reply_is_dropped(state: MatcherState, bytes: Seq<u8>)
    requires
        state.retired is Some,
        is_reply(bytes),
        reply_names(reply_control(bytes), state.retired->0.image_id),
    ensures
        state.answer(bytes) == Some(None::<Response>),
        state.after(bytes) == (MatcherState { expected: state.expected, retired: None }),
{
}

/// A reply about an image that is neither expected nor retired is not for the
/// matcher, and changes nothing.
pub proof fn law_foreign_image_is_not_answered(state: MatcherState, bytes: Seq<u8>, image_id: u32)
    requires
        is_reply(bytes),
        reply_names(reply_control(bytes), image_id),
        state.expected matches Some(e) ==> e.image_id != image_id,
        state.retired matches Some(r) ==> r.image_id != image_id,
    ensures
        state.answer(bytes) is None,
        state.after(bytes) == state,
{
    if let Some(e) = state.expected {
        if reply_names(reply_control(bytes), e.image_id) {
            law_reply_names_one_image(reply_control(bytes), image_id, e.image_id);
        }
    }
    if let Some(r) = state.retired {
        if reply_names(reply_control(bytes), r.image_id) {
            law_reply_names_one_image(reply_control(bytes), image_id, r.image_id);
        }
    }
}

/// Bytes that are not a reply are not for the matcher, and change nothing.
pub proof fn law_other_input_is_not_answered(state: MatcherState, bytes: Seq<u8>)
    requires
        !is_reply(bytes),
    ensures
        state.answer(bytes) is None,
        state.after(bytes) == state,
{
}

/// After a timeout a new transfer can be announced at once. A late reply to the
/// old one is dropped and does not touch the new one, whose own reply is then
/// reported.
pub proof fn law_new_transfer_after_timeout(
    state: MatcherState,
    transfer_id: u64,
    started: nat,
    timed_out: nat,
    new_transfer: u64,
    new_image: u32,
    late: Seq<u8>,
    reply: Seq<u8>,
)
    requires
        state.expects(transfer_id),
        started + RESPONSE_TIMEOUT <= timed_out,
        new_image != state.expected->0.image_id,
        is_reply(late),
        reply_names(reply_control(late), state.expected->0.image_id),
        is_reply(reply),
        reply_names(reply_control(reply), new_image),
    ensures
        ({
            let expired = state.started(transfer_id, started).expired(timed_out);
            let armed = expired.armed(new_transfer, new_image);
            let response = Response {
                transfer_id: new_transfer,
                image_id: new_image,
                success: reply_message(reply) == ok_message(),
            };
            &&& expired.expected is None
            &&& armed.expects(new_transfer)
            &&& armed.answer(late) == Some(None::<Response>)
            &&& armed.after(late).expects(new_transfer)
            &&& armed.after(late).answer(reply) == Some(Some(response))
            &&& armed.answer(reply) == Some(Some(response))
        }),
{
    let old_image = state.expected->0.image_id;
    if reply_names(reply_control(reply), old_image) {
        law_reply_names_one_image(reply_control(reply), new_image, old_image);
    }
}

/// A reply with control data `control` and message `message`.
pub open spec fn reply_of(control: Seq<u8>, message: Seq<u8>) -> Seq<u8> {
    seq![0x1bu8, 0x5fu8, 0x47u8] + control + seq![0x3bu8] + message + seq![0x1bu8, 0x5cu8]
}

/// Whatever its control data and its message are, the parts of a reply are
/// found again, and it is a reply as long as it has at most 4096 bytes.
pub proof fn law_reply_parts_are_read_back(control: Seq<u8>, message: Seq<u8>)
    requires
        !control.contains(0x3b),
    ensures
        is_reply(reply_of(control, message)) <==> reply_of(control, message).len() <= 4096,
        reply_control(reply_of(control, message)) == control,
        reply_message(reply_of(control, message)) == message,
{
    let bytes = reply_of(control, message);
    assert(kitty_prefix() =~= bytes.subrange(0, 3));
    assert(kitty_suffix() =~= bytes.subrange(bytes.len() - 2, bytes.len() as int));
    assert(payload(bytes) =~= control + seq![SEMICOLON] + message);
    assert forall|j: int| 0 <= j < control.len() implies payload(bytes)[j] != SEMICOLON by {
        assert(control.contains(control[j]));
    }
    lemma_index_of_unique(payload(bytes), SEMICOLON, control.len() as int);
    assert(payload(bytes)[control.len() as int] == SEMICOLON);
    assert(reply_control(bytes) =~= control);
    assert(reply_message(bytes) =~= message);
}

/// A reply is made up of its parts: nothing is lost and nothing is added.
pub proof fn law_reply_is_made_of_its_parts(bytes: Seq<u8>)
    requires
        is_reply(bytes),
    ensures
        bytes == reply_of(reply_control(bytes), reply_message(bytes)),
        !reply_control(bytes).contains(0x3b),
        bytes.len() <= 4096,
{
    let inner = payload(bytes);
    let i = index_of(inner, SEMICOLON) as int;
    let start = bytes.subrange(0, 3);
    let end = bytes.subrange(bytes.len() - 2, bytes.len() as int);
    assert(start =~= kitty_prefix());
    assert(end =~= kitty_suffix());
    assert(start[2] == bytes[2]);
    assert(end[0] == bytes[bytes.len() - 2]);
    assert(bytes.len() >= 5);
    lemma_index_of(inner, SEMICOLON);
    assert(i < inner.len()) by {
        let k = choose|k: int| 0 <= k < inner.len() && inner[k] == SEMICOLON;
        assert(inner[k] == SEMICOLON);
    }
    assert(inner =~= reply_control(bytes) + seq![0x3bu8] + reply_message(bytes));
    assert(bytes =~= start + inner + end);
    assert(bytes =~= reply_of(reply_control(bytes), reply_message(bytes)));
}

/// What becomes of a reply is decided by the image that its control data names:
/// the retired one first, then the expected one. Its message decides nothing
/// but whether the expected transfer succeeded, which it did if and only if the
/// message is `OK`.
pub proof fn law_reply_is_answered_by_image(
    state: MatcherState,
    control: Seq<u8>,
    message: Seq<u8>,
)
    requires
        !control.contains(0x3b),
        reply_of(control, message).len() <= 4096,
    ensures
        ({
            let reply = reply_of(control, message);
            let late = state.retired matches Some(r) && reply_names(control, r.image_id);
            let awaited = state.expected matches Some(e) && reply_names(control, e.image_id);
            &&& late ==> {
                &&& state.answer(reply) == Some(None::<Response>)
                &&& state.after(reply).expected == state.expected
                &&& state.after(reply).retired is None
            }
            &&& !late && awaited ==> {
                &&& state.answer(reply) matches Some(Some(response))
                &&& response.transfer_id == state.expected->0.transfer_id
                &&& response.image_id == state.expected->0.image_id
                &&& response.success <==> message == seq![0x4fu8, 0x4bu8]
                &&& state.after(reply).expected is None
                &&& state.after(reply).retired == state.retired
            }
            &&& !late && !awaited ==> state.answer(reply) is None && state.after(reply) == state
        }),
{
    law_reply_parts_are_read_back(control, message);
}

/// Nothing is answered but whole replies of at most 4096 bytes, and nothing
/// else changes what is waited for.
pub proof fn law_nothing_but_replies_is_answered(state: MatcherState, bytes: Seq<u8>)
    requires
        state.answer(bytes) is Some || state.after(bytes) != state,
    ensures
        bytes.len() <= 4096,
        exists|control: Seq<u8>, message: Seq<u8>|
            !control.contains(0x3b) && bytes == #[trigger] reply_of(control, message),
{
    law_reply_is_made_of_its_parts(bytes);
}

/// The shortest reply about image `image` with message `message`.
pub open spec fn plain_reply(image: u32, message: Seq<u8>) -> Seq<u8> {
    reply_of(plain_reply_control(image), message)
}

/// The parts of the shortest reply are found again.
pub proof fn law_plain_reply_is_read_back(image: u32, message: Seq<u8>)
    requires
        plain_reply(image, message).len() <= MAX_RESPONSE_BYTES,
    ensures
        is_reply(plain_reply(image, message)),
        reply_control(plain_reply(image, message)) == plain_reply_control(image),
        reply_message(plain_reply(image, message)) == message,
{
    law_plain_reply_names_its_image(image);
    law_reply_parts_are_read_back(plain_reply_control(image), message);
}

/// A matcher waits while a transfer is expected or an image is retired.
pub proof fn law_waiting(state: MatcherState)
    ensures
        state.is_waiting() <==> !(state.expected is None && state.retired is None),
{
}

/// A matcher in order has published `true` exactly while a transfer is expected
/// or an image is retired.
pub proof fn law_flag_says_whether_matcher_is_waiting(matcher: ResponseMatcher)
    requires
        matcher.well_formed(),
    ensures
        matcher.published() <==> matcher@.expected is Some || matcher@.retired is Some,
{
}

/// Time can be told at every moment that leaves room for a retirement, and at
/// every moment at all while nothing is overdue.
pub proof fn law_time_can_be_told(state: MatcherState, now: nat)
    ensures
        now + 1_000_000_000 <= u128::MAX ==> state.can_expire(now),
        (state.expected matches Some(e) ==> e.deadline matches Some(deadline) ==> now < deadline)
            ==> state.can_expire(now),
{
}

/// A transfer is announced with its own numbers and without a deadline, unless
/// another one is expected. A retired image stays retired.
pub proof fn law_announced_transfer_is_expected(
    state: MatcherState,
    transfer_id: u64,
    image_id: u32,
)
    ensures
        state.armed(transfer_id, image_id).retired == state.retired,
        state.expected is Some ==> state.armed(transfer_id, image_id).expected == state.expected,
        state.expected is None ==> {
            &&& state.armed(transfer_id, image_id).expected matches Some(e)
            &&& e.transfer_id == transfer_id
            &&& e.image_id == image_id
            &&& e.deadline is None
        },
{
}

/// Three seconds after the expected transfer was written out, its reply is due.
/// Nothing else changes. Starting it again moves the deadline.
pub proof fn law_start_sets_the_deadline(state: MatcherState, transfer_id: u64, now: nat)
    requires
        state.expected matches Some(e) && e.transfer_id == transfer_id,
    ensures
        state.expects(transfer_id),
        state.started(transfer_id, now).retired == state.retired,
        state.started(transfer_id, now).expected matches Some(e) && {
            &&& e.transfer_id == transfer_id
            &&& e.image_id == state.expected->0.image_id
            &&& e.deadline == Some(now + 3_000_000_000)
        },
{
}

/// The expected transfer can be cancelled. A retired image stays retired, and
/// the cancelled one is not retired.
pub proof fn law_cancelled_transfer_is_forgotten(state: MatcherState, transfer_id: u64)
    requires
        state.expected matches Some(e) && e.transfer_id == transfer_id,
    ensures
        state.cancelled(transfer_id).expected is None,
        state.cancelled(transfer_id).retired == state.retired,
{
}

/// The image of a transfer that is given up is retired for one second, in place
/// of any image that was retired before.
pub proof fn law_given_up_image_is_retired(state: MatcherState, transfer_id: u64, now: nat)
    requires
        state.expected matches Some(e) && e.transfer_id == transfer_id,
    ensures
        state.given_up(transfer_id, now).expected is None,
        state.given_up(transfer_id, now).retired matches Some(r) && {
            &&& r.image_id == state.expected->0.image_id
            &&& r.until == now + 1_000_000_000
        },
{
}

/// A transfer whose deadline has passed is no longer expected. Its image is
/// retired for one second from then on, in place of any other.
pub proof fn law_overdue_image_is_retired(state: MatcherState, now: nat)
    requires
        state.expected matches Some(e) && e.deadline matches Some(deadline) && deadline <= now,
    ensures
        state.expired(now).expected is None,
        state.expired(now).retired matches Some(r) && {
            &&& r.image_id == state.expected->0.image_id
            &&& r.until == now + 1_000_000_000
        },
{
}

/// While no deadline passes, time changes nothing but that a retirement runs
/// out: it is kept as it is before its end and forgotten from its end on,
/// whatever is expected meanwhile.
pub proof fn law_retirement_is_kept_until_its_end(state: MatcherState, now: nat)
    requires
        state.expected matches Some(e) ==> e.deadline matches Some(deadline) ==> now < deadline,
    ensures
        state.expired(now).expected == state.expected,
        state.retired is None ==> state.expired(now).retired is None,
        state.retired matches Some(r) ==> state.expired(now).retired == if now < r.until {
            Some(r)
        } else {
            None
        },
{
}

/// After a transfer is given up, every reply about its image is dropped for one
/// second, and none after that.
pub proof fn law_reply_to_given_up_transfer_is_dropped(
    state: MatcherState,
    transfer_id: u64,
    now: nat,
    later: nat,
    control: Seq<u8>,
    message: Seq<u8>,
)
    requires
        state.expected matches Some(e) && e.transfer_id == transfer_id && reply_names(
            control,
            e.image_id,
        ),
        !control.contains(0x3b),
        reply_of(control, message).len() <= 4096,
    ensures
        later < now + 1_000_000_000 ==> state.given_up(transfer_id, now).expired(later).answer(
            reply_of(control, message),
        ) == Some(None::<Response>),
        later >= now + 1_000_000_000 ==> state.given_up(transfer_id, now).expired(later).answer(
            reply_of(control, message),
        ) is None,
{
    let retired = state.given_up(transfer_id, now);
    law_given_up_image_is_retired(state, transfer_id, now);
    law_retirement_is_kept_until_its_end(retired, later);
    law_reply_is_answered_by_image(retired.expired(later), control, message);
}

/// The shortest reply to a transfer that was given up is dropped for one second.
pub proof fn law_plain_reply_to_given_up_transfer_is_dropped(
    state: MatcherState,
    transfer_id: u64,
    now: nat,
    later: nat,
    message: Seq<u8>,
)
    requires
        state.expected matches Some(e) && e.transfer_id == transfer_id,
        plain_reply(state.expected->0.image_id, message).len() <= 4096,
        later < now + 1_000_000_000,
    ensures
        state.given_up(transfer_id, now).expired(later).answer(
            plain_reply(state.expected->0.image_id, message),
        ) == Some(None::<Response>),
{
    let image = state.expected->0.image_id;
    law_plain_reply_names_its_image(image);
    law_reply_to_given_up_transfer_is_dropped(
        state,
        transfer_id,
        now,
        later,
        plain_reply_control(image),
        message,
    );
}

/// A late reply is dropped beside a new transfer too, started or not: until its
/// retirement ends, giving up one transfer and announcing and starting the next
/// takes nothing from it, and the next transfer is still expected afterwards.
pub proof fn law_late_reply_is_dropped_beside_new_transfer(
    state: MatcherState,
    transfer_id: u64,
    given_up: nat,
    new_transfer: u64,
    new_image: u32,
    started: nat,
    now: nat,
    control: Seq<u8>,
    message: Seq<u8>,
)
    requires
        state.expected matches Some(e) && e.transfer_id == transfer_id && reply_names(
            control,
            e.image_id,
        ),
        !control.contains(0x3b),
        reply_of(control, message).len() <= 4096,
        now < given_up + 1_000_000_000,
        now < started + 3_000_000_000,
    ensures
        ({
            let reply = reply_of(control, message);
            let announced = state.given_up(transfer_id, given_up).armed(new_transfer, new_image);
            let written = announced.started(new_transfer, started);
            &&& announced.expired(now).answer(reply) == Some(None::<Response>)
            &&& announced.expired(now).after(reply).expected == announced.expected
            &&& written.expired(now).answer(reply) == Some(None::<Response>)
            &&& written.expired(now).after(reply).expected == written.expected
        }),
{
    let announced = state.given_up(transfer_id, given_up).armed(new_transfer, new_image);
    let written = announced.started(new_transfer, started);
    law_reply_is_answered_by_image(announced.expired(now), control, message);
    law_reply_is_answered_by_image(written.expired(now), control, message);
}

/// The terminal's reply about the expected image is reported, with success if
/// and only if its message is `OK`, unless a late reply about that same image
/// is still to be dropped first.
pub proof fn law_expected_reply_is_reported(state: MatcherState, message: Seq<u8>)
    requires
        state.expected is Some,
        state.retired matches Some(r) ==> r.image_id != state.expected->0.image_id,
        plain_reply(state.expected->0.image_id, message).len() <= MAX_RESPONSE_BYTES,
    ensures
        state.answer(plain_reply(state.expected->0.image_id, message)) == Some(
            Some(
                Response {
                    transfer_id: state.expected->0.transfer_id,
                    image_id: state.expected->0.image_id,
                    success: message == ok_message(),
                },
            ),
        ),
{
    let image = state.expected->0.image_id;
    law_plain_reply_is_read_back(image, message);
    law_plain_reply_names_its_image(image);
    if let Some(r) = state.retired {
        if reply_names(plain_reply_control(image), r.image_id) {
            law_reply_names_one_image(plain_reply_control(image), image, r.image_id);
        }
    }
}

} // verus!
