//! Separates a terminal's replies from what the user types.
//!
//! Input arrives in arbitrary fragments. While a reply is awaited, the filter
//! cuts the input into pieces: a piece is either a whole graphics command or
//! plain input. Plain input is forwarded, commands are offered to the matcher
//! and forwarded if it has no use for them. What could still become a command
//! is held back until more input arrives.

use vstd::prelude::*;

use crate::bytes::{find, find_bytes, lemma_find};
use crate::clock::LATEST_MOMENT;
use crate::controls::ESCAPE;
use crate::matcher::{kitty_prefix, kitty_suffix};
use crate::matcher::{MatcherState, Response, ResponseMatcher};
use crate::matcher::{BACKSLASH, GRAPHICS, MAX_RESPONSE_BYTES, UNDERSCORE};

verus! {

/// The first `len` bytes of some input: a whole graphics command, or plain input.
pub struct Piece {
    pub len: nat,
    pub command: bool,
}

/// How many bytes at the end of `s` could be the beginning of a graphics command.
pub open spec fn unfinished_prefix(s: Seq<u8>) -> nat {
    if kitty_prefix().take(2).is_suffix_of(s) {
        2
    } else if kitty_prefix().take(1).is_suffix_of(s) {
        1
    } else {
        0
    }
}

/// The first piece of `s`, or `None` if all of `s` has to be held back.
///
/// Plain input reaches to the first start of a command. A command reaches to
/// the first end behind its start. A command that has not ended after
/// `MAX_RESPONSE_BYTES` bytes is plain input.
pub open spec fn first_piece(s: Seq<u8>) -> Option<Piece> {
    match find(s, kitty_prefix()) {
        None => if unfinished_prefix(s) < s.len() {
            Some(Piece { len: (s.len() - unfinished_prefix(s)) as nat, command: false })
        } else {
            None
        },
        Some(start) => if start > 0 {
            Some(Piece { len: start, command: false })
        } else {
            match find(s, kitty_suffix()) {
                Some(end) => Some(Piece { len: end + 2, command: true }),
                None => if s.len() > MAX_RESPONSE_BYTES {
                    Some(Piece { len: s.len(), command: false })
                } else {
                    None
                },
            }
        },
    }
}

/// A piece is a non-empty part of the input.
pub proof fn lemma_first_piece(s: Seq<u8>)
    ensures
        first_piece(s) matches Some(piece) ==> 0 < piece.len <= s.len(),
{
    lemma_find(s, kitty_prefix());
    lemma_find(s, kitty_suffix());
}

/// How many of the pieces of `s` are commands.
pub open spec fn command_count(s: Seq<u8>) -> nat
    decreases s.len(),
    via command_count_decreases
{
    match first_piece(s) {
        None => 0,
        Some(piece) => command_count(s.skip(piece.len as int)) + if piece.command {
            1nat
        } else {
            0nat
        },
    }
}

#[via_fn]
proof fn command_count_decreases(s: Seq<u8>) {
    lemma_first_piece(s);
}

/// What comes of some input.
#[verifier::ext_equal]
pub struct Outcome {
    /// What is forwarded, in order.
    pub output: Seq<Seq<u8>>,
    /// The responses, in order.
    pub responses: Seq<Response>,
    /// What the matcher is waiting for afterwards.
    pub matcher: MatcherState,
    /// What is held back.
    pub held: Seq<u8>,
}

impl Outcome {
    /// This outcome behind what was forwarded and answered before.
    pub open spec fn behind(self, output: Seq<Seq<u8>>, responses: Seq<Response>) -> Outcome {
        Outcome { output: output + self.output, responses: responses + self.responses, ..self }
    }
}

/// What is forwarded of a command that got `answer`.
pub open spec fn forwarded(
    command: Seq<u8>,
    answer: Option<Option<Response>>,
) -> Seq<Seq<u8>> {
    if answer is None {
        seq![command]
    } else {
        seq![]
    }
}

/// The response that `answer` holds, if any.
pub open spec fn answered(answer: Option<Option<Response>>) -> Seq<Response> {
    match answer {
        Some(Some(response)) => seq![response],
        _ => seq![],
    }
}

/// What comes of input `s` piece by piece, if the matcher is waiting for
/// `matcher` and the commands are offered to it at the moments in `clock`.
pub open spec fn filtered(matcher: MatcherState, s: Seq<u8>, clock: Seq<nat>) -> Outcome
    decreases s.len(),
    via filtered_decreases
{
    match first_piece(s) {
        None => Outcome { output: seq![], responses: seq![], matcher, held: s },
        Some(piece) => {
            let bytes = s.take(piece.len as int);
            let rest = s.skip(piece.len as int);
            if piece.command {
                let current = matcher.expired(clock.first());
                filtered(current.after(bytes), rest, clock.drop_first()).behind(
                    forwarded(bytes, current.answer(bytes)),
                    answered(current.answer(bytes)),
                )
            } else {
                filtered(matcher, rest, clock).behind(seq![bytes], seq![])
            }
        },
    }
}

#[via_fn]
proof fn filtered_decreases(matcher: MatcherState, s: Seq<u8>, clock: Seq<nat>) {
    lemma_first_piece(s);
}

/// What comes of new input `bytes` behind the held-back `held`. At moment
/// `gate` it is decided whether the matcher is waiting at all; if not, all
/// input is forwarded at once.
pub open spec fn pushed(
    held: Seq<u8>,
    bytes: Seq<u8>,
    matcher: MatcherState,
    gate: nat,
    clock: Seq<nat>,
) -> Outcome {
    let current = matcher.expired(gate);
    if current.is_waiting() {
        filtered(current, held + bytes, clock)
    } else {
        Outcome { output: seq![held + bytes], responses: seq![], matcher: current, held: seq![] }
    }
}

/// `clock` is what a clock shows that is read several times in a row: it showed
/// `from` before and shows `to` at the end, and never goes back.
pub open spec fn are_readings(from: nat, clock: Seq<nat>, to: nat) -> bool {
    &&& forall|k: int| 0 <= k < clock.len() ==> from <= #[trigger] clock[k] <= LATEST_MOMENT
    &&& forall|j: int, k: int| 0 <= j <= k < clock.len() ==> clock[j] <= clock[k]
    &&& to == if clock.len() == 0 {
        from
    } else {
        clock.last()
    }
}

/// The contents of a list of byte vectors.
pub open spec fn contents(chunks: Seq<Vec<u8>>) -> Seq<Seq<u8>> {
    chunks.map_values(|chunk: Vec<u8>| chunk@)
}

/// Putting an outcome behind two earlier parts, one after the other.
proof fn lemma_behind(
    outcome: Outcome,
    output: Seq<Seq<u8>>,
    responses: Seq<Response>,
    earlier_output: Seq<Seq<u8>>,
    earlier_responses: Seq<Response>,
)
    ensures
        outcome.behind(output, responses).behind(earlier_output, earlier_responses)
            == outcome.behind(earlier_output + output, earlier_responses + responses),
{
    assert(outcome.behind(output, responses).behind(earlier_output, earlier_responses)
        =~= outcome.behind(earlier_output + output, earlier_responses + responses));
}

/// Which bytes at the end of `pending` could be the beginning of a command.
fn unfinished(pending: &[u8]) -> (keep: usize)
    ensures
        keep == unfinished_prefix(pending@),
        keep <= pending@.len(),
{
    let n: usize = pending.len();
    let two: bool = n >= 2 && pending[n - 2] == ESCAPE && pending[n - 1] == UNDERSCORE;
    let one: bool = n >= 1 && pending[n - 1] == ESCAPE;
    proof {
        let pair = kitty_prefix().take(2);
        let single = kitty_prefix().take(1);
        assert(pair =~= seq![ESCAPE, UNDERSCORE]);
        assert(single =~= seq![ESCAPE]);
        if two {
            assert(pair =~= pending@.subrange(n - 2, n as int));
        }
        if one {
            assert(single =~= pending@.subrange(n - 1, n as int));
        }
        if pair.is_suffix_of(pending@) {
            assert(pending@.subrange(n - 2, n as int)[0] == ESCAPE);
            assert(pending@.subrange(n - 2, n as int)[1] == UNDERSCORE);
        }
        if single.is_suffix_of(pending@) {
            assert(pending@.subrange(n - 1, n as int)[0] == ESCAPE);
        }
    }
    if two {
        2
    } else if one {
        1
    } else {
        0
    }
}

/// The length of the first piece, and whether it is a command.
fn cut(pending: &[u8]) -> (piece: Option<(usize, bool)>)
    ensures
        piece is Some == first_piece(pending@) is Some,
        piece matches Some(p) ==> {
            &&& first_piece(pending@) == Some(Piece { len: p.0 as nat, command: p.1 })
            &&& 0 < p.0 <= pending@.len()
        },
{
    let n: usize = pending.len();
    proof {
        lemma_first_piece(pending@);
    }
    let prefix: [u8; 3] = [ESCAPE, UNDERSCORE, GRAPHICS];
    let suffix: [u8; 2] = [ESCAPE, BACKSLASH];
    assert(prefix@ =~= kitty_prefix());
    assert(suffix@ =~= kitty_suffix());
    match find_bytes(pending, prefix.as_slice()) {
        None => {
            let keep: usize = unfinished(pending);
            if keep < n {
                Some((n - keep, false))
            } else {
                None
            }
        },
        Some(start) => if start > 0 {
            Some((start, false))
        } else {
            match find_bytes(pending, suffix.as_slice()) {
                Some(end) => Some((end + 2, true)),
                None => if n > MAX_RESPONSE_BYTES {
                    Some((n, false))
                } else {
                    None
                },
            }
        },
    }
}

/// Where moments come from: from `fixed`, with the clock left alone, or else
/// from the clock.
spec fn taken_at(fixed: Option<u128>, from: nat, clock: Seq<nat>, to: nat) -> bool {
    match fixed {
        Some(now) => {
            &&& forall|k: int| 0 <= k < clock.len() ==> #[trigger] clock[k] == now
            &&& to == from
        },
        None => are_readings(from, clock, to),
    }
}

/// Holds back what could be part of a reply.
pub struct InputFilter {
    pending: Vec<u8>,
}

impl View for InputFilter {
    type V = Seq<u8>;

    /// The bytes that are held back.
    closed spec fn view(&self) -> Seq<u8> {
        self.pending@
    }
}

impl Default for InputFilter {
    /// A filter that holds nothing back.
    fn default() -> (filter: InputFilter)
        ensures
            filter@ == Seq::<u8>::empty(),
    {
        InputFilter { pending: Vec::new() }
    }
}

impl InputFilter {
    /// Whether anything is held back.
    pub fn has_pending(&self) -> (pending: bool)
        ensures
            pending == (self@.len() > 0),
    {
        !self.pending.is_empty()
    }

    /// Hands out all that is held back.
    fn take_pending(&mut self) -> (bytes: Vec<u8>)
        ensures
            bytes@ == old(self)@,
            final(self)@ == Seq::<u8>::empty(),
    {
        let mut bytes: Vec<u8> = Vec::new();
        std::mem::swap(&mut bytes, &mut self.pending);
        bytes
    }

    /// Hands out the first `n` bytes that are held back.
    fn take_first(&mut self, n: usize) -> (bytes: Vec<u8>)
        requires
            n <= old(self)@.len(),
        ensures
            bytes@ == old(self)@.take(n as int),
            final(self)@ == old(self)@.skip(n as int),
    {
        let mut bytes: Vec<u8> = self.pending.split_off(n);
        std::mem::swap(&mut bytes, &mut self.pending);
        bytes
    }

    /// Hands out what is held back, if no reply is awaited any more.
    pub fn flush_if_inactive(&mut self, matcher: &mut ResponseMatcher) -> (bytes: Option<Vec<u8>>)
        requires
            old(matcher).well_formed(),
        ensures
            final(matcher).well_formed(),
            final(matcher).shared_flag() == old(matcher).shared_flag(),
            final(matcher).origin() == old(matcher).origin(),
            old(matcher).moment() <= final(matcher).moment() <= LATEST_MOMENT,
            final(matcher)@ == if old(self)@.len() > 0 {
                old(matcher)@.expired(final(matcher).moment())
            } else {
                old(matcher)@
            },
            bytes is Some == (old(self)@.len() > 0 && !final(matcher)@.is_waiting()),
            bytes is None ==> final(self)@ == old(self)@,
            bytes matches Some(b) ==> b@ == old(self)@ && final(self)@.len() == 0,
    {
        let now: u128 = matcher.now();
        self.flush_if_inactive_at(matcher, now)
    }

    /// Hands out what is held back, if no reply is awaited at moment `now`.
    pub fn flush_if_inactive_at(&mut self, matcher: &mut ResponseMatcher, now: u128) -> (bytes:
        Option<Vec<u8>>)
        requires
            old(matcher).well_formed(),
            old(matcher)@.can_expire(now as nat),
        ensures
            final(matcher).well_formed(),
            final(matcher).shared_flag() == old(matcher).shared_flag(),
            final(matcher).origin() == old(matcher).origin(),
            final(matcher).moment() == old(matcher).moment(),
            final(matcher)@ == if old(self)@.len() > 0 {
                old(matcher)@.expired(now as nat)
            } else {
                old(matcher)@
            },
            bytes is Some == (old(self)@.len() > 0 && !final(matcher)@.is_waiting()),
            bytes is None ==> final(self)@ == old(self)@,
            bytes matches Some(b) ==> b@ == old(self)@ && final(self)@.len() == 0,
    {
        if self.has_pending() && !matcher.interested_at(now) {
            Some(self.take_pending())
        } else {
            None
        }
    }

    /// Filters what is held back. The moments come from `fixed`, or else from
    /// the matcher's clock.
    fn drain(&mut self, matcher: &mut ResponseMatcher, fixed: Option<u128>) -> (result: (
        Vec<Vec<u8>>,
        Vec<Response>,
        Ghost<Seq<nat>>,
    ))
        requires
            old(matcher).well_formed(),
            fixed matches Some(now) ==> old(matcher)@.can_expire(now as nat),
        ensures
            final(matcher).well_formed(),
            final(matcher).shared_flag() == old(matcher).shared_flag(),
            final(matcher).origin() == old(matcher).origin(),
            result.2@.len() == command_count(old(self)@),
            taken_at(fixed, old(matcher).moment(), result.2@, final(matcher).moment()),
            filtered(old(matcher)@, old(self)@, result.2@) == (Outcome {
                output: contents(result.0@),
                responses: result.1@,
                matcher: final(matcher)@,
                held: final(self)@,
            }),
    {
        let mut output: Vec<Vec<u8>> = Vec::new();
        let mut responses: Vec<Response> = Vec::new();
        let ghost mut clock: Seq<nat> = Seq::empty();
        proof {
            assert forall|later: Seq<nat>| #[trigger] filtered(
                matcher@,
                self@,
                clock + later,
            ) == filtered(matcher@, self@, later).behind(contents(output@), responses@) by {
                assert(clock + later =~= later);
                assert(filtered(matcher@, self@, later) =~= filtered(matcher@, self@, later).behind(
                    contents(output@),
                    responses@,
                ));
            }
        }
        loop
            invariant
                matcher.well_formed(),
                matcher.shared_flag() == old(matcher).shared_flag(),
                matcher.origin() == old(matcher).origin(),
                fixed matches Some(now) ==> matcher@.can_expire(now as nat),
                command_count(old(self)@) == clock.len() + command_count(self@),
                taken_at(fixed, old(matcher).moment(), clock, matcher.moment()),
                forall|later: Seq<nat>| #[trigger]
                    filtered(old(matcher)@, old(self)@, clock + later) == filtered(
                        matcher@,
                        self@,
                        later,
                    ).behind(contents(output@), responses@),
            decreases self@.len(),
        {
            let (n, command): (usize, bool) = match cut(self.pending.as_slice()) {
                Some(piece) => piece,
                None => {
                    proof {
                        let nothing = Seq::<nat>::empty();
                        assert(clock + nothing =~= clock);
                        assert(filtered(old(matcher)@, old(self)@, clock + nothing) == filtered(
                            matcher@,
                            self@,
                            nothing,
                        ).behind(contents(output@), responses@));
                        assert(contents(output@) + Seq::<Seq<u8>>::empty() =~= contents(output@));
                        assert(responses@ + Seq::<Response>::empty() =~= responses@);
                    }
                    return (output, responses, Ghost(clock));
                },
            };
            let ghost s = self@;
            let ghost earlier = matcher@;
            let ghost output_before = contents(output@);
            let ghost responses_before = responses@;
            let ghost clock_before = clock;
            let bytes: Vec<u8> = self.take_first(n);
            let ghost piece = bytes@;
            if command {
                let now: u128 = match fixed {
                    Some(now) => now,
                    None => matcher.now(),
                };
                let answer: Option<Option<Response>> = matcher.consume_at(bytes.as_slice(), now);
                let ghost given = answer;
                match answer {
                    Some(Some(response)) => responses.push(response),
                    Some(None) => {},
                    None => output.push(bytes),
                }
                proof {
                    clock = clock.push(now as nat);
                    assert(contents(output@) =~= output_before + forwarded(piece, given));
                    assert(responses@ =~= responses_before + answered(given));
                    assert forall|later: Seq<nat>| #[trigger] filtered(
                        old(matcher)@,
                        old(self)@,
                        clock + later,
                    ) == filtered(matcher@, self@, later).behind(contents(output@), responses@) by {
                        let readings = seq![now as nat] + later;
                        assert(clock + later =~= clock_before + readings);
                        assert(readings.drop_first() =~= later);
                        assert(filtered(old(matcher)@, old(self)@, clock_before + readings)
                            == filtered(earlier, s, readings).behind(
                            output_before,
                            responses_before,
                        ));
                        lemma_behind(
                            filtered(matcher@, self@, later),
                            forwarded(piece, given),
                            answered(given),
                            output_before,
                            responses_before,
                        );
                    }
                }
            } else {
                output.push(bytes);
                proof {
                    assert(contents(output@) =~= output_before + seq![piece]);
                    assert(responses@ =~= responses_before + Seq::<Response>::empty());
                    assert forall|later: Seq<nat>| #[trigger] filtered(
                        old(matcher)@,
                        old(self)@,
                        clock + later,
                    ) == filtered(matcher@, self@, later).behind(contents(output@), responses@) by {
                        lemma_behind(
                            filtered(matcher@, self@, later),
                            seq![piece],
                            seq![],
                            output_before,
                            responses_before,
                        );
                    }
                }
            }
        }
    }

    /// Filters new input, in whatever fragments it arrives: what is to be
    /// forwarded, in order, and the responses that were found.
    ///
    /// The clock is read once to decide whether a reply is awaited, and if so
    /// once for each command in the input.
    pub fn push(&mut self, bytes: &[u8], matcher: &mut ResponseMatcher) -> (result: (
        Vec<Vec<u8>>,
        Vec<Response>,
    ))
        requires
            old(matcher).well_formed(),
        ensures
            final(matcher).well_formed(),
            final(matcher).shared_flag() == old(matcher).shared_flag(),
            final(matcher).origin() == old(matcher).origin(),
            exists|gate: nat, clock: Seq<nat>|
                {
                    &&& old(matcher).moment() <= gate <= LATEST_MOMENT
                    &&& are_readings(gate, clock, final(matcher).moment())
                    &&& clock.len() == if old(matcher)@.expired(gate).is_waiting() {
                        command_count(old(self)@ + bytes@)
                    } else {
                        0
                    }
                    &&& #[trigger] pushed(old(self)@, bytes@, old(matcher)@, gate, clock) == (
                    Outcome {
                        output: contents(result.0@),
                        responses: result.1@,
                        matcher: final(matcher)@,
                        held: final(self)@,
                    })
                },
    {
        let gate: u128 = matcher.now();
        let (output, responses, clock): (
            Vec<Vec<u8>>,
            Vec<Response>,
            Ghost<Seq<nat>>,
        ) = self.push_from(bytes, matcher, gate, None);
        assert(pushed(old(self)@, bytes@, old(matcher)@, gate as nat, clock@) == (Outcome {
            output: contents(output@),
            responses: responses@,
            matcher: matcher@,
            held: self@,
        }));
        (output, responses)
    }

    /// Filters new input at moment `now`.
    pub fn push_at(&mut self, bytes: &[u8], matcher: &mut ResponseMatcher, now: u128) -> (result: (
        Vec<Vec<u8>>,
        Vec<Response>,
    ))
        requires
            old(matcher).well_formed(),
            old(matcher)@.can_expire(now as nat),
        ensures
            final(matcher).well_formed(),
            final(matcher).shared_flag() == old(matcher).shared_flag(),
            final(matcher).origin() == old(matcher).origin(),
            final(matcher).moment() == old(matcher).moment(),
            pushed(
                old(self)@,
                bytes@,
                old(matcher)@,
                now as nat,
                Seq::new(command_count(old(self)@ + bytes@), |k: int| now as nat),
            ) == (Outcome {
                output: contents(result.0@),
                responses: result.1@,
                matcher: final(matcher)@,
                held: final(self)@,
            }),
    {
        let (output, responses, clock): (
            Vec<Vec<u8>>,
            Vec<Response>,
            Ghost<Seq<nat>>,
        ) = self.push_from(bytes, matcher, now, Some(now));
        proof {
            if old(matcher)@.expired(now as nat).is_waiting() {
                assert(clock@ =~= Seq::new(
                    command_count(old(self)@ + bytes@),
                    |k: int| now as nat,
                ));
            }
        }
        (output, responses)
    }

    /// Filters new input: `gate` decides whether a reply is awaited, and the
    /// moments after that come from `fixed`, or else from the matcher's clock.
    fn push_from(
        &mut self,
        bytes: &[u8],
        matcher: &mut ResponseMatcher,
        gate: u128,
        fixed: Option<u128>,
    ) -> (result: (Vec<Vec<u8>>, Vec<Response>, Ghost<Seq<nat>>))
        requires
            old(matcher).well_formed(),
            old(matcher)@.can_expire(gate as nat),
            fixed matches Some(now) ==> old(matcher)@.can_expire(now as nat),
        ensures
            final(matcher).well_formed(),
            final(matcher).shared_flag() == old(matcher).shared_flag(),
            final(matcher).origin() == old(matcher).origin(),
            taken_at(fixed, old(matcher).moment(), result.2@, final(matcher).moment()),
            result.2@.len() == if old(matcher)@.expired(gate as nat).is_waiting() {
                command_count(old(self)@ + bytes@)
            } else {
                0
            },
            pushed(old(self)@, bytes@, old(matcher)@, gate as nat, result.2@) == (Outcome {
                output: contents(result.0@),
                responses: result.1@,
                matcher: final(matcher)@,
                held: final(self)@,
            }),
    {
        self.pending.extend_from_slice(bytes);
        assert(self@ =~= old(self)@ + bytes@);
        if !matcher.interested_at(gate) {
            let mut output: Vec<Vec<u8>> = Vec::new();
            let responses: Vec<Response> = Vec::new();
            let all: Vec<u8> = self.take_pending();
            output.push(all);
            assert(contents(output@) =~= seq![old(self)@ + bytes@]);
            return (output, responses, Ghost(Seq::empty()));
        }
        self.drain(matcher, fixed)
    }
}

} // verus!
