//! What each operation does, from its arguments to its results.
//!
//! The laws speak of any call that has returned: `call_ensures` relates the
//! arguments of a call to its result, `old` and `final` the values before and
//! after it.

use std::sync::atomic::AtomicBool;
use std::sync::Arc;

use vstd::prelude::*;

use crate::bytes::{digits_only, find_byte, find_bytes, same_bytes, writes_number};
use crate::bytes::{lemma_find, lemma_index_of, number, occurs_at};
use crate::bytes_laws::law_numbers_are_digits;
use crate::controls::{is_valid_control, matching_response_controls, reply_names, valid_control};
use crate::clock::LATEST_MOMENT;
use crate::filter::{are_readings, command_count, contents, filtered, pushed};
use crate::filter::{InputFilter, Outcome};
use crate::filter_laws::{law_awaited_input_is_filtered, law_idle_input_is_forwarded};
use crate::filter_laws::law_contents_are_kept;
use crate::matcher::{MatcherState, Response, ResponseMatcher};
use crate::matcher_laws::{law_nothing_but_replies_is_answered, law_reply_is_answered_by_image};
use crate::matcher_laws::{law_overdue_image_is_retired, law_retirement_is_kept_until_its_end};
use crate::matcher_laws::reply_of;

verus! {

/// `after` is what is waited for at moment `now`, if it was `before` until then:
/// a transfer whose deadline has come is retired for one second, a retirement
/// that has come to its end is forgotten, and nothing else changes.
pub open spec fn settles_as(before: MatcherState, now: nat, after: MatcherState) -> bool {
    if before.expected is Some && before.expected->0.deadline is Some
        && before.expected->0.deadline->0 <= now {
        &&& after.expected is None
        &&& after.retired is Some
        &&& after.retired->0.image_id == before.expected->0.image_id
        &&& after.retired->0.until == now + 1_000_000_000
    } else {
        &&& after.expected == before.expected
        &&& after.retired == if before.retired is Some && before.retired->0.until <= now {
            None
        } else {
            before.retired
        }
    }
}

/// The flag, the clock's origin and the well-formedness of a matcher outlive
/// an operation, and the flag says whether anything is waited for.
pub open spec fn stays_in_order(before: ResponseMatcher, after: ResponseMatcher) -> bool {
    &&& after.shared_flag() == before.shared_flag()
    &&& after.origin() == before.origin()
    &&& after.published() <==> after@.expected is Some || after@.retired is Some
}

proof fn lemma_settles(state: MatcherState, now: nat)
    ensures
        settles_as(state, now, state.expired(now)),
{
    if state.expected is Some && state.expected->0.deadline is Some
        && state.expected->0.deadline->0 <= now {
        law_overdue_image_is_retired(state, now);
    } else {
        law_retirement_is_kept_until_its_end(state, now);
    }
}

/// The handle is one to the matcher's own flag.
pub proof fn law_active_handle(matcher: ResponseMatcher, handle: Arc<AtomicBool>)
    requires
        call_ensures(ResponseMatcher::active_handle, (&matcher,), handle),
    ensures
        handle == matcher.shared_flag(),
{
}

/// Publishing changes nothing but the flag, which then says whether anything is
/// waited for.
pub proof fn law_refresh_active(matcher: &mut ResponseMatcher)
    requires
        call_ensures(ResponseMatcher::refresh_active, (matcher,), ()),
    ensures
        stays_in_order(*old(matcher), *final(matcher)),
        final(matcher)@ == old(matcher)@,
        final(matcher).moment() == old(matcher).moment(),
{
}

/// A matcher is interested while a transfer is expected or an image is retired,
/// after what is due by then has been done.
pub proof fn law_interested_at(matcher: &mut ResponseMatcher, now: u128, waiting: bool)
    requires
        call_ensures(ResponseMatcher::interested_at, (matcher, now), waiting),
    ensures
        stays_in_order(*old(matcher), *final(matcher)),
        settles_as(old(matcher)@, now as nat, final(matcher)@),
        final(matcher).moment() == old(matcher).moment(),
        waiting <==> final(matcher)@.expected is Some || final(matcher)@.retired is Some,
{
    lemma_settles(old(matcher)@, now as nat);
}

/// The same at the present moment.
pub proof fn law_interested(matcher: &mut ResponseMatcher, waiting: bool)
    requires
        call_ensures(ResponseMatcher::interested, (matcher,), waiting),
    ensures
        stays_in_order(*old(matcher), *final(matcher)),
        settles_as(old(matcher)@, final(matcher).moment(), final(matcher)@),
        old(matcher).moment() <= final(matcher).moment(),
        waiting <==> final(matcher)@.expected is Some || final(matcher)@.retired is Some,
{
    lemma_settles(old(matcher)@, final(matcher).moment());
}

/// Telling the time does what is due by then, and nothing else.
pub proof fn law_expire_at(matcher: &mut ResponseMatcher, now: u128)
    requires
        call_ensures(ResponseMatcher::expire_at, (matcher, now), ()),
    ensures
        stays_in_order(*old(matcher), *final(matcher)),
        settles_as(old(matcher)@, now as nat, final(matcher)@),
        final(matcher).moment() == old(matcher).moment(),
{
    lemma_settles(old(matcher)@, now as nat);
}

/// The same at the present moment.
pub proof fn law_expire(matcher: &mut ResponseMatcher)
    requires
        call_ensures(ResponseMatcher::expire, (matcher,), ()),
    ensures
        stays_in_order(*old(matcher), *final(matcher)),
        settles_as(old(matcher)@, final(matcher).moment(), final(matcher)@),
        old(matcher).moment() <= final(matcher).moment(),
{
    lemma_settles(old(matcher)@, final(matcher).moment());
}

/// `after` is what is waited for behind the announcement of a transfer: the
/// announcement is accepted if and only if no other one is expected, and only
/// then is the transfer expected, with its own numbers and without a deadline.
pub open spec fn announces(
    before: MatcherState,
    transfer_id: u64,
    image_id: u32,
    accepted: bool,
    after: MatcherState,
) -> bool {
    &&& accepted <==> before.expected is None
    &&& after.retired == before.retired
    &&& !accepted ==> after.expected == before.expected
    &&& accepted ==> {
        &&& after.expected is Some
        &&& after.expected->0.transfer_id == transfer_id
        &&& after.expected->0.image_id == image_id
        &&& after.expected->0.deadline is None
    }
}

/// A transfer is announced after what is due by then has been done.
pub proof fn law_arm_at(
    matcher: &mut ResponseMatcher,
    transfer_id: u64,
    image_id: u32,
    now: u128,
    accepted: bool,
) -> (settled: MatcherState)
    requires
        call_ensures(ResponseMatcher::arm_at, (matcher, transfer_id, image_id, now), accepted),
    ensures
        stays_in_order(*old(matcher), *final(matcher)),
        settles_as(old(matcher)@, now as nat, settled),
        announces(settled, transfer_id, image_id, accepted, final(matcher)@),
        final(matcher).moment() == old(matcher).moment(),
{
    lemma_settles(old(matcher)@, now as nat);
    old(matcher)@.expired(now as nat)
}

/// The same at the present moment.
pub proof fn law_arm(
    matcher: &mut ResponseMatcher,
    transfer_id: u64,
    image_id: u32,
    accepted: bool,
)
    requires
        call_ensures(ResponseMatcher::arm, (matcher, transfer_id, image_id), accepted),
    ensures
        stays_in_order(*old(matcher), *final(matcher)),
        exists|settled: MatcherState| #[trigger]
            settles_as(old(matcher)@, final(matcher).moment(), settled) && announces(
                settled,
                transfer_id,
                image_id,
                accepted,
                final(matcher)@,
            ),
        old(matcher).moment() <= final(matcher).moment(),
{
    lemma_settles(old(matcher)@, final(matcher).moment());
}

/// `after` is what is waited for behind the start of a transfer: the expected
/// transfer has three seconds from `now`, and any other one changes nothing.
pub open spec fn starts(
    before: MatcherState,
    transfer_id: u64,
    now: nat,
    after: MatcherState,
) -> bool {
    if before.expected is Some && before.expected->0.transfer_id == transfer_id {
        &&& after.expected is Some
        &&& after.expected->0.transfer_id == transfer_id
        &&& after.expected->0.image_id == before.expected->0.image_id
        &&& after.expected->0.deadline == Some(now + 3_000_000_000)
        &&& after.retired == before.retired
    } else {
        after == before
    }
}

/// Starting the expected transfer sets its deadline.
pub proof fn law_start_at(matcher: &mut ResponseMatcher, transfer_id: u64, now: u128)
    requires
        call_ensures(ResponseMatcher::start_at, (matcher, transfer_id, now), ()),
    ensures
        stays_in_order(*old(matcher), *final(matcher)),
        starts(old(matcher)@, transfer_id, now as nat, final(matcher)@),
        final(matcher).moment() == old(matcher).moment(),
{
}

/// The same at the present moment.
pub proof fn law_start(matcher: &mut ResponseMatcher, transfer_id: u64)
    requires
        call_ensures(ResponseMatcher::start, (matcher, transfer_id), ()),
    ensures
        stays_in_order(*old(matcher), *final(matcher)),
        starts(old(matcher)@, transfer_id, final(matcher).moment(), final(matcher)@),
        old(matcher).moment() <= final(matcher).moment(),
{
}

/// Cancelling forgets the expected transfer, and leaves any other one and a
/// retired image alone.
pub proof fn law_cancel(matcher: &mut ResponseMatcher, transfer_id: u64)
    requires
        call_ensures(ResponseMatcher::cancel, (matcher, transfer_id), ()),
    ensures
        stays_in_order(*old(matcher), *final(matcher)),
        final(matcher)@.retired == old(matcher)@.retired,
        final(matcher)@.expected == if old(matcher)@.expected is Some
            && old(matcher)@.expected->0.transfer_id == transfer_id {
            None
        } else {
            old(matcher)@.expected
        },
        final(matcher).moment() == old(matcher).moment(),
{
}

/// `after` is what is waited for behind giving up a transfer: the image of the
/// expected transfer is retired for one second from `now`, and any other one
/// changes nothing.
pub open spec fn gives_up(
    before: MatcherState,
    transfer_id: u64,
    now: nat,
    after: MatcherState,
) -> bool {
    if before.expected is Some && before.expected->0.transfer_id == transfer_id {
        &&& after.expected is None
        &&& after.retired is Some
        &&& after.retired->0.image_id == before.expected->0.image_id
        &&& after.retired->0.until == now + 1_000_000_000
    } else {
        after == before
    }
}

/// Giving up the expected transfer retires its image.
pub proof fn law_retire_at(matcher: &mut ResponseMatcher, transfer_id: u64, now: u128)
    requires
        call_ensures(ResponseMatcher::retire_at, (matcher, transfer_id, now), ()),
    ensures
        stays_in_order(*old(matcher), *final(matcher)),
        gives_up(old(matcher)@, transfer_id, now as nat, final(matcher)@),
        final(matcher).moment() == old(matcher).moment(),
{
}

/// The same at the present moment.
pub proof fn law_retire(matcher: &mut ResponseMatcher, transfer_id: u64)
    requires
        call_ensures(ResponseMatcher::retire, (matcher, transfer_id), ()),
    ensures
        stays_in_order(*old(matcher), *final(matcher)),
        gives_up(old(matcher)@, transfer_id, final(matcher).moment(), final(matcher)@),
        old(matcher).moment() <= final(matcher).moment(),
{
}

/// `answer` and `after` are what comes of a reply with control data `control`
/// and message `message`: it is dropped if it names the retired image, reported
/// if it names the expected one, with success if and only if the message is
/// `OK`, and otherwise not for the matcher.
pub open spec fn answers(
    before: MatcherState,
    control: Seq<u8>,
    message: Seq<u8>,
    answer: Option<Option<Response>>,
    after: MatcherState,
) -> bool {
    if before.retired is Some && reply_names(control, before.retired->0.image_id) {
        &&& answer == Some(None::<Response>)
        &&& after.expected == before.expected
        &&& after.retired is None
    } else if before.expected is Some && reply_names(control, before.expected->0.image_id) {
        &&& answer is Some
        &&& answer->0 is Some
        &&& answer->0->0.transfer_id == before.expected->0.transfer_id
        &&& answer->0->0.image_id == before.expected->0.image_id
        &&& answer->0->0.success <==> message == seq![0x4fu8, 0x4bu8]
        &&& after.expected is None
        &&& after.retired == before.retired
    } else {
        answer is None && after == before
    }
}

/// A reply is answered after what is due by then has been done.
pub proof fn law_consume_at(
    matcher: &mut ResponseMatcher,
    bytes: &[u8],
    now: u128,
    answer: Option<Option<Response>>,
    control: Seq<u8>,
    message: Seq<u8>,
) -> (settled: MatcherState)
    requires
        call_ensures(ResponseMatcher::consume_at, (matcher, bytes, now), answer),
        bytes@ == reply_of(control, message),
        !control.contains(0x3b),
        bytes@.len() <= 4096,
    ensures
        stays_in_order(*old(matcher), *final(matcher)),
        settles_as(old(matcher)@, now as nat, settled),
        answers(settled, control, message, answer, final(matcher)@),
        final(matcher).moment() == old(matcher).moment(),
{
    let settled = old(matcher)@.expired(now as nat);
    lemma_settles(old(matcher)@, now as nat);
    law_reply_is_answered_by_image(settled, control, message);
    settled
}

/// The same at the present moment.
pub proof fn law_consume(
    matcher: &mut ResponseMatcher,
    bytes: &[u8],
    answer: Option<Option<Response>>,
    control: Seq<u8>,
    message: Seq<u8>,
)
    requires
        call_ensures(ResponseMatcher::consume, (matcher, bytes), answer),
        bytes@ == reply_of(control, message),
        !control.contains(0x3b),
        bytes@.len() <= 4096,
    ensures
        stays_in_order(*old(matcher), *final(matcher)),
        exists|settled: MatcherState| #[trigger]
            settles_as(old(matcher)@, final(matcher).moment(), settled) && answers(
                settled,
                control,
                message,
                answer,
                final(matcher)@,
            ),
        old(matcher).moment() <= final(matcher).moment(),
{
    lemma_settles(old(matcher)@, final(matcher).moment());
    law_reply_is_answered_by_image(
        old(matcher)@.expired(final(matcher).moment()),
        control,
        message,
    );
}

/// `bytes` are too long for a reply, or have no form of one.
pub open spec fn is_no_reply(bytes: Seq<u8>) -> bool {
    ||| bytes.len() > 4096
    ||| forall|control: Seq<u8>, message: Seq<u8>|
        !control.contains(0x3b) ==> bytes != #[trigger] reply_of(control, message)
}

proof fn lemma_no_reply(state: MatcherState, bytes: Seq<u8>)
    requires
        is_no_reply(bytes),
    ensures
        state.answer(bytes) is None,
        state.after(bytes) == state,
{
    if state.answer(bytes) is Some || state.after(bytes) != state {
        law_nothing_but_replies_is_answered(state, bytes);
    }
}

/// Bytes that are no reply are not for the matcher, which then does no more
/// than what is due.
pub proof fn law_consume_no_reply_at(
    matcher: &mut ResponseMatcher,
    bytes: &[u8],
    now: u128,
    answer: Option<Option<Response>>,
)
    requires
        call_ensures(ResponseMatcher::consume_at, (matcher, bytes, now), answer),
        is_no_reply(bytes@),
    ensures
        stays_in_order(*old(matcher), *final(matcher)),
        answer is None,
        settles_as(old(matcher)@, now as nat, final(matcher)@),
{
    lemma_settles(old(matcher)@, now as nat);
    lemma_no_reply(old(matcher)@.expired(now as nat), bytes@);
}

/// The same at the present moment.
pub proof fn law_consume_no_reply(
    matcher: &mut ResponseMatcher,
    bytes: &[u8],
    answer: Option<Option<Response>>,
)
    requires
        call_ensures(ResponseMatcher::consume, (matcher, bytes), answer),
        is_no_reply(bytes@),
    ensures
        stays_in_order(*old(matcher), *final(matcher)),
        answer is None,
        settles_as(old(matcher)@, final(matcher).moment(), final(matcher)@),
{
    lemma_settles(old(matcher)@, final(matcher).moment());
    lemma_no_reply(old(matcher)@.expired(final(matcher).moment()), bytes@);
}

/// Something is pending if and only if anything is held back.
pub proof fn law_has_pending(filter: InputFilter, pending: bool)
    requires
        call_ensures(InputFilter::has_pending, (&filter,), pending),
    ensures
        pending <==> filter@ != Seq::<u8>::empty(),
{
    if filter@.len() == 0 {
        assert(filter@ =~= Seq::<u8>::empty());
    }
}

/// `bytes` are what a flush hands out: all that was held back, in one part, if
/// there was any and nothing is waited for, and otherwise nothing. The matcher
/// is asked only if something was held back.
pub open spec fn flushes(
    held: Seq<u8>,
    bytes: Option<Vec<u8>>,
    left: Seq<u8>,
    after: MatcherState,
) -> bool {
    if held.len() > 0 && after.expected is None && after.retired is None {
        &&& bytes is Some
        &&& bytes->0@ == held
        &&& left.len() == 0
    } else {
        &&& bytes is None
        &&& left == held
    }
}

/// What is held back is handed out once no reply is awaited.
pub proof fn law_flush_if_inactive_at(
    filter: &mut InputFilter,
    matcher: &mut ResponseMatcher,
    now: u128,
    bytes: Option<Vec<u8>>,
)
    requires
        call_ensures(InputFilter::flush_if_inactive_at, (filter, matcher, now), bytes),
    ensures
        stays_in_order(*old(matcher), *final(matcher)),
        flushes(old(filter)@, bytes, final(filter)@, final(matcher)@),
        old(filter)@.len() > 0 ==> settles_as(old(matcher)@, now as nat, final(matcher)@),
        old(filter)@.len() == 0 ==> final(matcher)@ == old(matcher)@,
        final(matcher).moment() == old(matcher).moment(),
{
    lemma_settles(old(matcher)@, now as nat);
}

/// The same at the present moment.
pub proof fn law_flush_if_inactive(
    filter: &mut InputFilter,
    matcher: &mut ResponseMatcher,
    bytes: Option<Vec<u8>>,
)
    requires
        call_ensures(InputFilter::flush_if_inactive, (filter, matcher), bytes),
    ensures
        stays_in_order(*old(matcher), *final(matcher)),
        flushes(old(filter)@, bytes, final(filter)@, final(matcher)@),
        old(filter)@.len() > 0 ==> settles_as(
            old(matcher)@,
            final(matcher).moment(),
            final(matcher)@,
        ),
        old(filter)@.len() == 0 ==> final(matcher)@ == old(matcher)@,
        old(matcher).moment() <= final(matcher).moment(),
{
    lemma_settles(old(matcher)@, final(matcher).moment());
}

/// `result` is what comes of input `s`, at the moments in `clock`, if `settled`
/// is waited for: while that is nothing, all input is forwarded in one part;
/// otherwise it is filtered.
pub open spec fn comes_out(
    settled: MatcherState,
    s: Seq<u8>,
    clock: Seq<nat>,
    result: (Vec<Vec<u8>>, Vec<Response>),
    after: MatcherState,
    left: Seq<u8>,
) -> bool {
    if settled.expected is None && settled.retired is None {
        &&& result.0@.len() == 1
        &&& result.0@[0]@ == s
        &&& result.1@.len() == 0
        &&& after == settled
        &&& left.len() == 0
    } else {
        let outcome = filtered(settled, s, clock);
        &&& result.0@.len() == outcome.output.len()
        &&& forall|k: int| 0 <= k < result.0@.len() ==> #[trigger] result.0@[k]@ == outcome.output[k]
        &&& result.1@ == outcome.responses
        &&& after == outcome.matcher
        &&& left == outcome.held
    }
}

/// New input is filtered behind what was held back, after what is due by then
/// has been done, and with every command offered at that moment.
pub proof fn law_push_at(
    filter: &mut InputFilter,
    bytes: &[u8],
    matcher: &mut ResponseMatcher,
    now: u128,
    result: (Vec<Vec<u8>>, Vec<Response>),
) -> (settled: MatcherState)
    requires
        call_ensures(InputFilter::push_at, (filter, bytes, matcher, now), result),
    ensures
        stays_in_order(*old(matcher), *final(matcher)),
        settles_as(old(matcher)@, now as nat, settled),
        comes_out(
            settled,
            old(filter)@ + bytes@,
            Seq::new(command_count(old(filter)@ + bytes@), |k: int| now as nat),
            result,
            final(matcher)@,
            final(filter)@,
        ),
        final(matcher).moment() == old(matcher).moment(),
{
    let settled = old(matcher)@.expired(now as nat);
    let s = old(filter)@ + bytes@;
    let clock = Seq::new(command_count(s), |k: int| now as nat);
    lemma_settles(old(matcher)@, now as nat);
    law_contents_are_kept(result.0@);
    if settled.expected is None && settled.retired is None {
        law_idle_input_is_forwarded(old(filter)@, bytes@, old(matcher)@, now as nat, clock);
        assert(contents(result.0@)[0] == s);
    } else {
        law_awaited_input_is_filtered(old(filter)@, bytes@, old(matcher)@, now as nat, clock);
    }
    settled
}

/// The same at the present moment: the clock is read once to see whether
/// anything is waited for, and, if so, once for each command.
pub proof fn law_push(
    filter: &mut InputFilter,
    bytes: &[u8],
    matcher: &mut ResponseMatcher,
    result: (Vec<Vec<u8>>, Vec<Response>),
)
    requires
        call_ensures(InputFilter::push, (filter, bytes, matcher), result),
    ensures
        stays_in_order(*old(matcher), *final(matcher)),
        exists|gate: nat, settled: MatcherState, clock: Seq<nat>|
            {
                &&& old(matcher).moment() <= gate
                &&& #[trigger] settles_as(old(matcher)@, gate, settled)
                &&& clock.len() == if settled.expected is None && settled.retired is None {
                    0
                } else {
                    command_count(old(filter)@ + bytes@)
                }
                &&& #[trigger] are_readings(gate, clock, final(matcher).moment())
                &&& comes_out(
                    settled,
                    old(filter)@ + bytes@,
                    clock,
                    result,
                    final(matcher)@,
                    final(filter)@,
                )
            },
{
    let (gate, clock) = choose|gate: nat, clock: Seq<nat>|
        {
            &&& old(matcher).moment() <= gate <= LATEST_MOMENT
            &&& are_readings(gate, clock, final(matcher).moment())
            &&& clock.len() == if old(matcher)@.expired(gate).is_waiting() {
                command_count(old(filter)@ + bytes@)
            } else {
                0
            }
            &&& #[trigger] pushed(old(filter)@, bytes@, old(matcher)@, gate, clock) == (Outcome {
                output: contents(result.0@),
                responses: result.1@,
                matcher: final(matcher)@,
                held: final(filter)@,
            })
        };
    let settled = old(matcher)@.expired(gate);
    let s = old(filter)@ + bytes@;
    lemma_settles(old(matcher)@, gate);
    law_contents_are_kept(result.0@);
    if settled.expected is None && settled.retired is None {
        law_idle_input_is_forwarded(old(filter)@, bytes@, old(matcher)@, gate, clock);
        assert(contents(result.0@)[0] == s);
    } else {
        law_awaited_input_is_filtered(old(filter)@, bytes@, old(matcher)@, gate, clock);
    }
    assert(settles_as(old(matcher)@, gate, settled));
    assert(are_readings(gate, clock, final(matcher).moment()));
}

/// Outgoing control data is judged by its bytes.
pub proof fn law_valid_control(control: &str, image: u32, valid: bool)
    requires
        call_ensures(valid_control, (control, image), valid),
    ensures
        valid == is_valid_control(vstd::utf8::encode_utf8(control@), image),
{
}

/// The control data of a reply is judged by the image it names.
pub proof fn law_matching_response_controls(bytes: &[u8], expected: u32, matching: bool)
    requires
        call_ensures(matching_response_controls, (bytes, expected), matching),
    ensures
        matching == reply_names(bytes@, expected),
{
}

/// A byte is found where it stands first, or else at the end.
pub proof fn law_find_byte(bytes: &[u8], byte: u8, i: usize)
    requires
        call_ensures(find_byte, (bytes, byte), i),
    ensures
        i <= bytes@.len(),
        i < bytes@.len() ==> bytes@[i as int] == byte,
        forall|j: int| 0 <= j < i ==> bytes@[j] != byte,
{
    lemma_index_of(bytes@, byte);
}

/// Two slices are the same if their bytes are.
pub proof fn law_same_bytes(a: &[u8], b: &[u8], same: bool)
    requires
        call_ensures(same_bytes, (a, b), same),
    ensures
        same <==> a@ == b@,
{
}

/// A pattern is found where it stands first, if it stands anywhere.
pub proof fn law_find_bytes(bytes: &[u8], pattern: &[u8], found: Option<usize>)
    requires
        call_ensures(find_bytes, (bytes, pattern), found),
    ensures
        found matches Some(i) ==> {
            &&& i + pattern@.len() <= bytes@.len()
            &&& bytes@.subrange(i as int, i + pattern@.len()) == pattern@
            &&& forall|j: int|
                0 <= j < i ==> #[trigger] bytes@.subrange(j, j + pattern@.len()) != pattern@
        },
        found is None ==> forall|j: int|
            0 <= j && j + pattern@.len() <= bytes@.len() ==> #[trigger] bytes@.subrange(
                j,
                j + pattern@.len(),
            ) != pattern@,
{
    let end = if found is Some {
        found->0 as int
    } else {
        bytes@.len() - pattern@.len() + 1
    };
    lemma_find(bytes@, pattern@);
    assert forall|j: int| 0 <= j < end implies #[trigger] bytes@.subrange(j, j + pattern@.len())
        != pattern@ by {
        assert(!occurs_at(bytes@, pattern@, j));
    }
}

/// Bytes are digits if each is one from `0` to `9`.
pub proof fn law_digits_only(bytes: &[u8], digits: bool)
    requires
        call_ensures(digits_only, (bytes,), digits),
    ensures
        digits <==> forall|i: int| 0 <= i < bytes@.len() ==> 48 <= #[trigger] bytes@[i] <= 57,
{
    law_numbers_are_digits(bytes@);
}

/// A number is written by digits that are read as it.
pub proof fn law_writes_number(bytes: &[u8], expected: u32, same: bool)
    requires
        call_ensures(writes_number, (bytes, expected), same),
    ensures
        same <==> number(bytes@) == Some(expected as nat),
{
}

/// A new matcher waits for nothing, and has published that.
pub proof fn law_new_matcher(matcher: ResponseMatcher)
    requires
        call_ensures(ResponseMatcher::default, (), matcher),
    ensures
        matcher@.expected is None,
        matcher@.retired is None,
        !matcher.published(),
        matcher.moment() == 0,
{
}

/// A new filter holds nothing back.
pub proof fn law_new_filter(filter: InputFilter)
    requires
        call_ensures(InputFilter::default, (), filter),
    ensures
        filter@.len() == 0,
{
}

/// At the present moment every operation can be called on every matcher whose
/// flag says whether anything is waited for, with any other arguments.
pub proof fn law_operations_can_be_called(
    filter: &mut InputFilter,
    matcher: &mut ResponseMatcher,
    transfer_id: u64,
    image_id: u32,
    bytes: &[u8],
)
    requires
        old(matcher).published() <==> old(matcher)@.expected is Some || old(matcher)@.retired is Some,
    ensures
        call_requires(ResponseMatcher::interested, (matcher,)),
        call_requires(ResponseMatcher::expire, (matcher,)),
        call_requires(ResponseMatcher::arm, (matcher, transfer_id, image_id)),
        call_requires(ResponseMatcher::start, (matcher, transfer_id)),
        call_requires(ResponseMatcher::cancel, (matcher, transfer_id)),
        call_requires(ResponseMatcher::retire, (matcher, transfer_id)),
        call_requires(ResponseMatcher::consume, (matcher, bytes)),
        call_requires(InputFilter::flush_if_inactive, (filter, matcher)),
        call_requires(InputFilter::push, (filter, bytes, matcher)),
{
}

/// The same holds of every moment that leaves room for a deadline.
pub proof fn law_operations_can_be_called_at(
    filter: &mut InputFilter,
    matcher: &mut ResponseMatcher,
    transfer_id: u64,
    image_id: u32,
    bytes: &[u8],
    now: u128,
)
    requires
        old(matcher).published() <==> old(matcher)@.expected is Some || old(matcher)@.retired is Some,
        now + 3_000_000_000 <= u128::MAX,
    ensures
        call_requires(ResponseMatcher::interested_at, (matcher, now)),
        call_requires(ResponseMatcher::expire_at, (matcher, now)),
        call_requires(ResponseMatcher::arm_at, (matcher, transfer_id, image_id, now)),
        call_requires(ResponseMatcher::start_at, (matcher, transfer_id, now)),
        call_requires(ResponseMatcher::retire_at, (matcher, transfer_id, now)),
        call_requires(ResponseMatcher::consume_at, (matcher, bytes, now)),
        call_requires(InputFilter::flush_if_inactive_at, (filter, matcher, now)),
        call_requires(InputFilter::push_at, (filter, bytes, matcher, now)),
{
}

} // verus!
